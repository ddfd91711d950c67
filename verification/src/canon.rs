//! Canonization of orbit graphs: relabelling a generator to dense vertex
//! numbers and writing the dreadnaut script that canonizes its orbit graph.

use vstd::prelude::*;
use vstd::string::StringExecFns;
use std::collections::HashMap;
use crate::text::{dec, push_char, push_decimal, is_digit, lemma_dec_value, lemma_dec_injective};
use crate::canonizer::{strictly_increasing, lemma_strictly_increasing_unique};
use crate::sorting::{sort_usizes, dedup_usizes, dedup_sorted, sorted, dedup_adjacent, lemma_dedup_sorted};

verus! {

broadcast use vstd::std_specs::hash::group_hash_axioms;

/// The vertices of an operation in order: its cycles laid end to end.
pub open spec fn flatten_op(op: Seq<Seq<usize>>) -> Seq<usize>
    decreases op.len(),
{
    if op.len() == 0 {
        Seq::empty()
    } else {
        flatten_op(op.drop_last()) + op.last()
    }
}

/// The vertices of a generator in order of appearance.
pub open spec fn flatten_gen(g: Seq<Seq<Seq<usize>>>) -> Seq<usize>
    decreases g.len(),
{
    if g.len() == 0 {
        Seq::empty()
    } else {
        flatten_gen(g.drop_last()) + flatten_op(g.last())
    }
}

/// Each value of `s` once, in order of its first occurrence.
pub open spec fn first_occurrences(s: Seq<usize>) -> Seq<usize>
    decreases s.len(),
{
    if s.len() == 0 {
        Seq::empty()
    } else {
        let r = first_occurrences(s.drop_last());
        if r.contains(s.last()) {
            r
        } else {
            r.push(s.last())
        }
    }
}

/// The labels of a generator: its distinct vertices in order of appearance.
pub open spec fn labels_of(g: Seq<Seq<Seq<usize>>>) -> Seq<usize> {
    first_occurrences(flatten_gen(g))
}

/// The generator with every vertex replaced by the position of its label.
pub open spec fn renumbered(g: Seq<Seq<Seq<usize>>>) -> Seq<Seq<Seq<usize>>> {
    g.map_values(
        |op: Seq<Seq<usize>>|
            op.map_values(
                |c: Seq<usize>| c.map_values(|v: usize| labels_of(g).index_of(v) as usize),
            ),
    )
}

pub proof fn lemma_first_occurrences(s: Seq<usize>)
    ensures
        first_occurrences(s).no_duplicates(),
        forall|v: usize| s.contains(v) <==> #[trigger] first_occurrences(s).contains(v),
        first_occurrences(s).len() <= s.len(),
    decreases s.len(),
{
    if s.len() > 0 {
        let p = s.drop_last();
        lemma_first_occurrences(p);
        assert forall|v: usize| s.contains(v) <==> #[trigger] first_occurrences(s).contains(v) by {
            lemma_push_contains(p, s.last(), v);
            lemma_push_contains(first_occurrences(p), s.last(), v);
            assert(s == p.push(s.last()));
        }
    }
}

pub proof fn lemma_push_contains(s: Seq<usize>, x: usize, v: usize)
    ensures
        s.push(x).contains(v) <==> (s.contains(v) || v == x),
{
    if s.push(x).contains(v) {
        let i = choose|i: int| 0 <= i < s.push(x).len() && s.push(x)[i] == v;
        if i < s.len() {
            assert(s[i] == v);
        }
    }
    if s.contains(v) {
        let i = choose|i: int| 0 <= i < s.len() && s[i] == v;
        assert(s.push(x)[i] == v);
    }
    if v == x {
        assert(s.push(x)[s.len() as int] == v);
    }
}

pub proof fn lemma_flatten_op_take(op: Seq<Seq<usize>>, c: int)
    requires
        0 <= c < op.len(),
    ensures
        flatten_op(op.take(c + 1)) == flatten_op(op.take(c)) + op[c],
{
    assert(op.take(c + 1).drop_last() =~= op.take(c));
}

pub proof fn lemma_flatten_gen_take(g: Seq<Seq<Seq<usize>>>, k: int)
    requires
        0 <= k < g.len(),
    ensures
        flatten_gen(g.take(k + 1)) == flatten_gen(g.take(k)) + flatten_op(g[k]),
{
    assert(g.take(k + 1).drop_last() =~= g.take(k));
}

pub proof fn lemma_first_occurrences_push(s: Seq<usize>, v: usize)
    ensures
        first_occurrences(s.push(v)) == if first_occurrences(s).contains(v) {
            first_occurrences(s)
        } else {
            first_occurrences(s).push(v)
        },
{
    assert(s.push(v).drop_last() =~= s);
}

pub open spec fn index_map_of(labels: Seq<usize>, m: Map<usize, usize>) -> bool {
    &&& forall|v: usize| m.contains_key(v) <==> labels.contains(v)
    &&& forall|v: usize| #[trigger] m.contains_key(v) ==> m[v] < labels.len() && labels[m[v] as int] == v
}

/// Renumber a generator to 0-indexed with no missing labels.
/// Returns the renumbered generator and the number of vertices.
pub fn renumber_generator_for_dreadnaut(gen_raw: &[Vec<Vec<usize>>]) -> (r: (
    Vec<Vec<Vec<usize>>>,
    usize,
))
    ensures
        r.0.deep_view() == renumbered(gen_raw.deep_view()),
        r.1 == labels_of(gen_raw.deep_view()).len(),
{
    let ghost g = gen_raw.deep_view();
    let mut index: HashMap<usize, usize> = HashMap::new();
    let mut labels: Vec<usize> = Vec::new();
    let mut gi: usize = 0;
    proof {
        assert(g.take(0) =~= Seq::<Seq<Seq<usize>>>::empty());
    }
    while gi < gen_raw.len()
        invariant
            gi <= gen_raw@.len(),
            g == gen_raw.deep_view(),
            labels@ == first_occurrences(flatten_gen(g.take(gi as int))),
            index_map_of(labels@, index@),
        decreases gen_raw.len() - gi,
    {
        let op = &gen_raw[gi];
        let ghost before = flatten_gen(g.take(gi as int));
        assert(g[gi as int] == op.deep_view());
        let mut ci: usize = 0;
        proof {
            assert(op.deep_view().take(0) =~= Seq::<Seq<usize>>::empty());
            assert(before + flatten_op(Seq::<Seq<usize>>::empty()) =~= before);
        }
        while ci < op.len()
            invariant
                ci <= op@.len(),
                g == gen_raw.deep_view(),
                gi < gen_raw@.len(),
                op == &gen_raw@[gi as int],
                g[gi as int] == op.deep_view(),
                before == flatten_gen(g.take(gi as int)),
                labels@ == first_occurrences(before + flatten_op(op.deep_view().take(ci as int))),
                index_map_of(labels@, index@),
            decreases op.len() - ci,
        {
            let cyc = &op[ci];
            let ghost mid = before + flatten_op(op.deep_view().take(ci as int));
            assert(op.deep_view()[ci as int] == cyc@);
            let mut k: usize = 0;
            assert(mid + cyc@.take(0) =~= mid);
            while k < cyc.len()
                invariant
                    k <= cyc@.len(),
                    labels@ == first_occurrences(mid + cyc@.take(k as int)),
                    index_map_of(labels@, index@),
                decreases cyc.len() - k,
            {
                let v = cyc[k];
                proof {
                    assert(mid + cyc@.take(k + 1) =~= (mid + cyc@.take(k as int)).push(v));
                    lemma_first_occurrences_push(mid + cyc@.take(k as int), v);
                }
                if !index.contains_key(&v) {
                    let n = labels.len();
                    let ghost old_labels = labels@;
                    let ghost old_index = index@;
                    index.insert(v, n);
                    labels.push(v);
                    proof {
                        assert forall|w: usize| labels@.contains(w) <==> (old_labels.contains(w)
                            || w == v) by {
                            lemma_push_contains(old_labels, v, w);
                        }
                        assert forall|w: usize| #[trigger] index@.contains_key(w) implies index@[w]
                            < labels@.len() && labels@[index@[w] as int] == w by {
                            if w != v {
                                assert(labels@[index@[w] as int] == w);
                            }
                        }
                        assert forall|w: usize| index@.contains_key(w) <==> labels@.contains(w) by {
                            assert(index@ == old_index.insert(v, n));
                            assert(old_index.contains_key(w) <==> old_labels.contains(w));
                        }
                    }
                }
                k = k + 1;
            }
            proof {
                assert(cyc@.take(cyc@.len() as int) =~= cyc@);
                lemma_flatten_op_take(op.deep_view(), ci as int);
                assert(mid + cyc@ =~= before + flatten_op(op.deep_view().take(ci + 1)));
            }
            ci = ci + 1;
        }
        proof {
            assert(op.deep_view().take(op@.len() as int) =~= op.deep_view());
            lemma_flatten_gen_take(g, gi as int);
        }
        gi = gi + 1;
    }
    proof {
        assert(g.take(gen_raw@.len() as int) =~= g);
        lemma_first_occurrences(flatten_gen(g));
    }
    let ghost labs = labels_of(g);
    let mut out: Vec<Vec<Vec<usize>>> = Vec::new();
    let mut gi: usize = 0;
    while gi < gen_raw.len()
        invariant
            gi <= gen_raw@.len(),
            g == gen_raw.deep_view(),
            labs == labels_of(g),
            labels@ == labs,
            labs.no_duplicates(),
            forall|v: usize| flatten_gen(g).contains(v) <==> #[trigger] labs.contains(v),
            index_map_of(labels@, index@),
            out.deep_view() == renumbered(g).take(gi as int),
        decreases gen_raw.len() - gi,
    {
        let op = &gen_raw[gi];
        let mut new_op: Vec<Vec<usize>> = Vec::new();
        let mut ci: usize = 0;
        while ci < op.len()
            invariant
                ci <= op@.len(),
                gi < gen_raw@.len(),
                op == &gen_raw@[gi as int],
                g == gen_raw.deep_view(),
                labs == labels_of(g),
                labels@ == labs,
                labs.no_duplicates(),
                forall|v: usize| flatten_gen(g).contains(v) <==> #[trigger] labs.contains(v),
                index_map_of(labels@, index@),
                new_op.deep_view() == renumbered(g)[gi as int].take(ci as int),
            decreases op.len() - ci,
        {
            let cyc = &op[ci];
            let mut new_cyc: Vec<usize> = Vec::new();
            let mut k: usize = 0;
            while k < cyc.len()
                invariant
                    k <= cyc@.len(),
                    gi < gen_raw@.len(),
                    ci < op@.len(),
                    op == &gen_raw@[gi as int],
                    cyc == &op@[ci as int],
                    g == gen_raw.deep_view(),
                    labs == labels_of(g),
                    labels@ == labs,
                    labs.no_duplicates(),
                    forall|v: usize| flatten_gen(g).contains(v) <==> #[trigger] labs.contains(v),
                    index_map_of(labels@, index@),
                    new_cyc@ == renumbered(g)[gi as int][ci as int].take(k as int),
                decreases cyc.len() - k,
            {
                let v = cyc[k];
                proof {
                    lemma_vertex_in_flatten(g, gi as int, ci as int, k as int);
                    assert(g[gi as int][ci as int][k as int] == v);
                    assert(labs.contains(v));
                }
                let idx = *index.get(&v).unwrap();
                proof {
                    assert(labs[idx as int] == v);
                    assert(labs.index_of(v) == idx as int) by {
                        let j = labs.index_of(v);
                        assert(0 <= j < labs.len() && labs[j] == v);
                    }
                    assert(renumbered(g)[gi as int][ci as int][k as int] == idx);
                }
                new_cyc.push(idx);
                assert(new_cyc@ =~= renumbered(g)[gi as int][ci as int].take(k + 1));
                k = k + 1;
            }
            proof {
                assert(new_cyc@ =~= renumbered(g)[gi as int][ci as int]);
            }
            let ghost before = new_op.deep_view();
            new_op.push(new_cyc);
            proof {
                assert(new_cyc.deep_view() =~= new_cyc@);
                assert(new_op.deep_view() =~= before.push(new_cyc@));
                assert(new_op.deep_view() =~= renumbered(g)[gi as int].take(ci + 1));
            }
            ci = ci + 1;
        }
        proof {
            assert(new_op.deep_view() =~= renumbered(g)[gi as int]);
        }
        let ghost before = out.deep_view();
        out.push(new_op);
        proof {
            assert(out.deep_view() =~= before.push(new_op.deep_view()));
            assert(out.deep_view() =~= renumbered(g).take(gi + 1));
        }
        gi = gi + 1;
    }
    proof {
        assert(out.deep_view() =~= renumbered(g));
    }
    let n = labels.len();
    (out, n)
}

pub proof fn lemma_vertex_in_flatten(g: Seq<Seq<Seq<usize>>>, gi: int, ci: int, k: int)
    requires
        0 <= gi < g.len(),
        0 <= ci < g[gi].len(),
        0 <= k < g[gi][ci].len(),
    ensures
        flatten_gen(g).contains(g[gi][ci][k]),
    decreases g.len(),
{
    if gi == g.len() - 1 {
        lemma_vertex_in_flatten_op(g[gi], ci, k);
        let f = flatten_op(g[gi]);
        let j = choose|j: int| 0 <= j < f.len() && f[j] == g[gi][ci][k];
        assert((flatten_gen(g.drop_last()) + f)[flatten_gen(g.drop_last()).len() + j] == f[j]);
    } else {
        lemma_vertex_in_flatten(g.drop_last(), gi, ci, k);
        let f = flatten_gen(g.drop_last());
        let j = choose|j: int| 0 <= j < f.len() && f[j] == g[gi][ci][k];
        assert((f + flatten_op(g.last()))[j] == f[j]);
    }
}

/// Renumbering is invertible: every vertex of the renumbered generator is a
/// position among the labels, and the label there is the vertex it replaced.
pub proof fn lemma_renumbered_labels(g: Seq<Seq<Seq<usize>>>, gi: int, ci: int, k: int)
    requires
        0 <= gi < g.len(),
        0 <= ci < g[gi].len(),
        0 <= k < g[gi][ci].len(),
        labels_of(g).len() <= usize::MAX,
    ensures
        renumbered(g)[gi][ci][k] < labels_of(g).len(),
        labels_of(g)[renumbered(g)[gi][ci][k] as int] == g[gi][ci][k],
        renumbered(g).len() == g.len(),
        renumbered(g)[gi].len() == g[gi].len(),
        renumbered(g)[gi][ci].len() == g[gi][ci].len(),
{
    let v = g[gi][ci][k];
    lemma_vertex_in_flatten(g, gi, ci, k);
    lemma_first_occurrences(flatten_gen(g));
    let labels = labels_of(g);
    assert(labels.contains(v));
    let j = choose|j: int| 0 <= j < labels.len() && labels[j] == v;
    let idx = labels.index_of(v);
    assert(0 <= idx < labels.len() && labels[idx] == v);
    assert(renumbered(g)[gi][ci][k] == idx as usize);
}

pub proof fn lemma_vertex_in_flatten_op(op: Seq<Seq<usize>>, ci: int, k: int)
    requires
        0 <= ci < op.len(),
        0 <= k < op[ci].len(),
    ensures
        flatten_op(op).contains(op[ci][k]),
    decreases op.len(),
{
    if ci == op.len() - 1 {
        let f = flatten_op(op.drop_last());
        assert((f + op.last())[f.len() + k] == op[ci][k]);
    } else {
        lemma_vertex_in_flatten_op(op.drop_last(), ci, k);
        let f = flatten_op(op.drop_last());
        let j = choose|j: int| 0 <= j < f.len() && f[j] == op[ci][k];
        assert((f + op.last())[j] == f[j]);
    }
}

// ---------------------------------------------------------------------------
// Orbit graph hash script
// ---------------------------------------------------------------------------

/// The successors of `u` along the first `n` positions of cycle `c`.
pub open spec fn succ_upto(c: Seq<usize>, u: usize, n: int) -> Seq<usize>
    decreases n,
{
    if n <= 0 {
        Seq::empty()
    } else if c[n - 1] == u {
        succ_upto(c, u, n - 1).push(c[n % (c.len() as int)])
    } else {
        succ_upto(c, u, n - 1)
    }
}

/// Where cycle `c` sends `u` (once for each occurrence of `u`); cycles of
/// fewer than two elements send nothing.
pub open spec fn cycle_successors(c: Seq<usize>, u: usize) -> Seq<usize> {
    if c.len() < 2 {
        Seq::empty()
    } else {
        succ_upto(c, u, c.len() as int)
    }
}

pub open spec fn op_successors(op: Seq<Seq<usize>>, u: usize) -> Seq<usize>
    decreases op.len(),
{
    if op.len() == 0 {
        Seq::empty()
    } else {
        op_successors(op.drop_last(), u) + cycle_successors(op.last(), u)
    }
}

/// Every successor of `u` over all operations, in the order of the generator.
pub open spec fn gen_successors(g: Seq<Seq<Seq<usize>>>, u: usize) -> Seq<usize>
    decreases g.len(),
{
    if g.len() == 0 {
        Seq::empty()
    } else {
        gen_successors(g.drop_last(), u) + op_successors(g.last(), u)
    }
}

/// Every element of a cycle of two or more elements is below `n`.
pub open spec fn vertices_below(g: Seq<Seq<Seq<usize>>>, n: nat) -> bool {
    forall|i: int, j: int, k: int|
        0 <= i < g.len() && 0 <= j < g[i].len() && 2 <= g[i][j].len() && 0 <= k < g[i][j].len()
            ==> #[trigger] g[i][j][k] < n
}

/// ` a b c` for the values `a b c`.
pub open spec fn spaced_numbers(s: Seq<usize>) -> Seq<char>
    decreases s.len(),
{
    if s.len() == 0 {
        Seq::empty()
    } else {
        spaced_numbers(s.drop_last()) + seq![' '] + dec(s.last() as nat)
    }
}

/// One adjacency line of the dreadnaut graph: `i: a b c;` (`.` on the last).
pub open spec fn hash_vertex_line(g: Seq<Seq<Seq<usize>>>, n: nat, i: nat) -> Seq<char> {
    dec(i) + seq![':'] + spaced_numbers(dedup_sorted(gen_successors(g, i as usize))) + if i + 1
        == n {
        seq!['.', '\n']
    } else {
        seq![';', '\n']
    }
}

pub open spec fn hash_vertex_lines(g: Seq<Seq<Seq<usize>>>, n: nat, k: nat) -> Seq<char>
    decreases k,
{
    if k == 0 {
        Seq::empty()
    } else {
        hash_vertex_lines(g, n, (k - 1) as nat) + hash_vertex_line(g, n, (k - 1) as nat)
    }
}

/// The dreadnaut script that prints the canonical hash of the orbit graph:
/// each vertex is joined to what the generator's cycles send it to.
pub open spec fn hash_script(g: Seq<Seq<Seq<usize>>>, n: nat) -> Seq<char> {
    "l=0\n-m\n"@ + "Ad\nd\n"@ + "n="@ + dec(n) + " g\n"@ + hash_vertex_lines(g, n, n)
        + "c -a\nx\nz\n"@
}

pub proof fn lemma_op_successors_take(op: Seq<Seq<usize>>, c: int, u: usize)
    requires
        0 <= c < op.len(),
    ensures
        op_successors(op.take(c + 1), u) == op_successors(op.take(c), u) + cycle_successors(
            op[c],
            u,
        ),
{
    assert(op.take(c + 1).drop_last() =~= op.take(c));
}

pub proof fn lemma_gen_successors_take(g: Seq<Seq<Seq<usize>>>, k: int, u: usize)
    requires
        0 <= k < g.len(),
    ensures
        gen_successors(g.take(k + 1), u) == gen_successors(g.take(k), u) + op_successors(g[k], u),
{
    assert(g.take(k + 1).drop_last() =~= g.take(k));
}

/// Appends ` a b c` for the values of `v`.
fn push_spaced_numbers(s: &mut String, v: &Vec<usize>)
    ensures
        final(s)@ == old(s)@ + spaced_numbers(v@),
{
    let mut i: usize = 0;
    assert(old(s)@ + spaced_numbers(v@.take(0)) =~= old(s)@);
    while i < v.len()
        invariant
            i <= v@.len(),
            s@ == old(s)@ + spaced_numbers(v@.take(i as int)),
        decreases v.len() - i,
    {
        push_char(s, ' ');
        push_decimal(s, v[i]);
        proof {
            assert(v@.take(i + 1).drop_last() =~= v@.take(i as int));
        }
        i = i + 1;
        assert(s@ =~= old(s)@ + spaced_numbers(v@.take(i as int)));
    }
    assert(v@.take(v@.len() as int) =~= v@);
}

/// Construct a Dreadnaut script to get the canon hash for an orbit graph.
pub fn orbit_graph_hash_script(combined_gen: &[Vec<Vec<usize>>], n_vertices: usize) -> (r:
    String)
    requires
        vertices_below(combined_gen.deep_view(), n_vertices as nat),
    ensures
        r@ == hash_script(combined_gen.deep_view(), n_vertices as nat),
{
    let ghost g = combined_gen.deep_view();
    let mut adj: Vec<Vec<usize>> = Vec::new();
    while adj.len() < n_vertices
        invariant
            adj@.len() <= n_vertices,
            forall|u: int| 0 <= u < adj@.len() ==> (#[trigger] adj@[u])@ == Seq::<usize>::empty(),
        decreases n_vertices - adj.len(),
    {
        adj.push(Vec::new());
    }
    let mut gi: usize = 0;
    while gi < combined_gen.len()
        invariant
            gi <= combined_gen@.len(),
            g == combined_gen.deep_view(),
            vertices_below(g, n_vertices as nat),
            adj@.len() == n_vertices,
            forall|u: int|
                0 <= u < n_vertices ==> (#[trigger] adj@[u])@ == gen_successors(
                    g.take(gi as int),
                    u as usize,
                ),
        decreases combined_gen.len() - gi,
    {
        let op = &combined_gen[gi];
        assert(g[gi as int] == op.deep_view());
        let mut ci: usize = 0;
        while ci < op.len()
            invariant
                ci <= op@.len(),
                gi < combined_gen@.len(),
                op == &combined_gen@[gi as int],
                g == combined_gen.deep_view(),
                g[gi as int] == op.deep_view(),
                vertices_below(g, n_vertices as nat),
                adj@.len() == n_vertices,
                forall|u: int|
                    0 <= u < n_vertices ==> (#[trigger] adj@[u])@ == gen_successors(
                        g.take(gi as int),
                        u as usize,
                    ) + op_successors(op.deep_view().take(ci as int), u as usize),
            decreases op.len() - ci,
        {
            let cycle = &op[ci];
            assert(op.deep_view()[ci as int] == cycle@);
            let len = cycle.len();
            if len >= 2 {
                let mut i: usize = 0;
                while i < len
                    invariant
                        i <= len,
                        len == cycle@.len(),
                        len >= 2,
                        gi < combined_gen@.len(),
                        ci < op@.len(),
                        g == combined_gen.deep_view(),
                        g[gi as int][ci as int] == cycle@,
                        g[gi as int] == op.deep_view(),
                        op == &combined_gen@[gi as int],
                        cycle == &op@[ci as int],
                        vertices_below(g, n_vertices as nat),
                        adj@.len() == n_vertices,
                        forall|u: int|
                            0 <= u < n_vertices ==> (#[trigger] adj@[u])@ == gen_successors(
                                g.take(gi as int),
                                u as usize,
                            ) + op_successors(op.deep_view().take(ci as int), u as usize)
                                + succ_upto(cycle@, u as usize, i as int),
                    decreases len - i,
                {
                    let u = cycle[i];
                    let v = cycle[(i + 1) % len];
                    assert(u < n_vertices) by {
                        assert(g.len() == combined_gen@.len());
                        assert(g[gi as int].len() == op@.len());
                        assert(g[gi as int][ci as int].len() == len);
                        assert(g[gi as int][ci as int][i as int] == u);
                    }
                    let ghost old_adj = adj@;
                    adj[u].push(v);
                    proof {
                        assert forall|w: int| 0 <= w < n_vertices implies (#[trigger] adj@[w])@
                            == gen_successors(g.take(gi as int), w as usize) + op_successors(
                            op.deep_view().take(ci as int),
                            w as usize,
                        ) + succ_upto(cycle@, w as usize, i + 1) by {
                            assert(succ_upto(cycle@, w as usize, i + 1) == if cycle@[i as int]
                                == w as usize {
                                succ_upto(cycle@, w as usize, i as int).push(v)
                            } else {
                                succ_upto(cycle@, w as usize, i as int)
                            });
                            if w == u {
                                assert(adj@[w]@ =~= old_adj[w]@.push(v));
                            }
                        }
                    }
                    i = i + 1;
                }
            }
            proof {
                assert forall|u: int| 0 <= u < n_vertices implies (#[trigger] adj@[u])@
                    == gen_successors(g.take(gi as int), u as usize) + op_successors(
                    op.deep_view().take(ci + 1),
                    u as usize,
                ) by {
                    lemma_op_successors_take(op.deep_view(), ci as int, u as usize);
                    if len < 2 {
                        assert(cycle_successors(cycle@, u as usize) =~= Seq::<usize>::empty());
                    }
                }
            }
            ci = ci + 1;
        }
        proof {
            assert(op.deep_view().take(op@.len() as int) =~= op.deep_view());
            assert forall|u: int| 0 <= u < n_vertices implies (#[trigger] adj@[u])@
                == gen_successors(g.take(gi + 1), u as usize) by {
                lemma_gen_successors_take(g, gi as int, u as usize);
            }
        }
        gi = gi + 1;
    }
    proof {
        assert(g.take(combined_gen@.len() as int) =~= g);
    }
    let mut script = String::new();
    script.append("l=0\n-m\n");
    script.append("Ad\nd\n");
    script.append("n=");
    push_decimal(&mut script, n_vertices);
    script.append(" g\n");
    let ghost head = script@;
    let mut i: usize = 0;
    while i < n_vertices
        invariant
            i <= n_vertices,
            adj@.len() == n_vertices,
            forall|u: int| 0 <= u < n_vertices ==> (#[trigger] adj@[u])@ == gen_successors(g, u as usize),
            script@ == head + hash_vertex_lines(g, n_vertices as nat, i as nat),
        decreases n_vertices - i,
    {
        push_decimal(&mut script, i);
        push_char(&mut script, ':');
        let sorted_list = sort_usizes(&adj[i]);
        let neigh = dedup_usizes(&sorted_list);
        push_spaced_numbers(&mut script, &neigh);
        if i == n_vertices - 1 {
            push_char(&mut script, '.');
        } else {
            push_char(&mut script, ';');
        }
        push_char(&mut script, '\n');
        proof {
            assert(neigh@ == dedup_sorted(gen_successors(g, i as usize)));
        }
        i = i + 1;
        assert(script@ =~= head + hash_vertex_lines(g, n_vertices as nat, i as nat));
    }
    script.append("c -a\nx\nz\n");
    script
}

// ---------------------------------------------------------------------------
// The hash script determines the orbit graph's edges
// ---------------------------------------------------------------------------

/// Equal texts with the same prefix and suffix have equal middles.
proof fn lemma_cancel_ends(p: Seq<char>, x: Seq<char>, y: Seq<char>, q: Seq<char>)
    requires
        p + x + q == p + y + q,
    ensures
        x == y,
{
    let a = p + x + q;
    assert(a.len() == p.len() + x.len() + q.len());
    assert((p + y + q).len() == p.len() + y.len() + q.len());
    assert(x.len() == y.len());
    assert(a.subrange(p.len() as int, (p.len() + x.len()) as int) =~= x);
    assert((p + y + q).subrange(p.len() as int, (p.len() + y.len()) as int) =~= y);
}

/// A text cut at the last occurrence of `c` is cut the same way whichever
/// way it was written.
proof fn lemma_last_separator(l1: Seq<char>, t1: Seq<char>, l2: Seq<char>, t2: Seq<char>, c: char)
    requires
        l1 + seq![c] + t1 == l2 + seq![c] + t2,
        forall|i: int| 0 <= i < t1.len() ==> #[trigger] t1[i] != c,
        forall|i: int| 0 <= i < t2.len() ==> #[trigger] t2[i] != c,
    ensures
        l1 == l2,
        t1 == t2,
{
    let x = l1 + seq![c] + t1;
    let y = l2 + seq![c] + t2;
    assert(x.len() == l1.len() + 1 + t1.len());
    assert(y.len() == l2.len() + 1 + t2.len());
    assert(x.len() == y.len());
    if l1.len() < l2.len() {
        assert(y[l2.len() as int] == c);
        assert(x[l2.len() as int] == t1[l2.len() - l1.len() - 1]);
    } else if l2.len() < l1.len() {
        assert(x[l1.len() as int] == c);
        assert(y[l1.len() as int] == t2[l1.len() - l2.len() - 1]);
    }
    assert(x.take(l1.len() as int) =~= l1);
    assert(y.take(l2.len() as int) =~= l2);
    assert(x.skip((l1.len() + 1) as int) =~= t1);
    assert(y.skip((l2.len() + 1) as int) =~= t2);
}

/// The characters of ` a b c` are spaces and digits.
proof fn lemma_spaced_chars(v: Seq<usize>)
    ensures
        forall|i: int| 0 <= i < spaced_numbers(v).len() ==> #[trigger] spaced_numbers(v)[i] == ' '
            || is_digit(spaced_numbers(v)[i]),
    decreases v.len(),
{
    if v.len() > 0 {
        let w = v.drop_last();
        lemma_spaced_chars(w);
        lemma_dec_value(v.last() as nat);
        let d = dec(v.last() as nat);
        let t = spaced_numbers(w) + seq![' '] + d;
        assert(spaced_numbers(v) == t);
        assert forall|i: int| 0 <= i < t.len() implies #[trigger] t[i] == ' ' || is_digit(t[i]) by {
            if i < spaced_numbers(w).len() {
                assert(t[i] == spaced_numbers(w)[i]);
            } else if i > spaced_numbers(w).len() {
                assert(t[i] == d[i - spaced_numbers(w).len() - 1]);
            }
        }
    }
}

/// ` a b c` determines `a b c`.
proof fn lemma_spaced_injective(v: Seq<usize>, w: Seq<usize>)
    requires
        spaced_numbers(v) == spaced_numbers(w),
    ensures
        v == w,
    decreases v.len(),
{
    if v.len() == 0 || w.len() == 0 {
        if v.len() > 0 {
            lemma_dec_value(v.last() as nat);
            assert(spaced_numbers(v).len() > 0);
        }
        if w.len() > 0 {
            lemma_dec_value(w.last() as nat);
            assert(spaced_numbers(w).len() > 0);
        }
        assert(v =~= w);
    } else {
        let dv = dec(v.last() as nat);
        let dw = dec(w.last() as nat);
        lemma_dec_value(v.last() as nat);
        lemma_dec_value(w.last() as nat);
        assert forall|i: int| 0 <= i < dv.len() implies #[trigger] dv[i] != ' ' by {
            assert(is_digit(dv[i]));
        }
        assert forall|i: int| 0 <= i < dw.len() implies #[trigger] dw[i] != ' ' by {
            assert(is_digit(dw[i]));
        }
        lemma_last_separator(spaced_numbers(v.drop_last()), dv, spaced_numbers(w.drop_last()), dw, ' ');
        lemma_dec_injective(v.last() as nat, w.last() as nat);
        lemma_spaced_injective(v.drop_last(), w.drop_last());
        assert(v =~= v.drop_last().push(v.last()));
        assert(w =~= w.drop_last().push(w.last()));
    }
}

/// A vertex line ends with its only line break.
proof fn lemma_line_shape(g: Seq<Seq<Seq<usize>>>, n: nat, i: nat)
    ensures
        ({
            let l = hash_vertex_line(g, n, i);
            &&& l.len() >= 1
            &&& l.last() == '\n'
            &&& forall|k: int| 0 <= k < l.len() - 1 ==> #[trigger] l[k] != '\n'
        }),
{
    let l = hash_vertex_line(g, n, i);
    let d = dec(i);
    let sp = spaced_numbers(dedup_sorted(gen_successors(g, i as usize)));
    lemma_dec_value(i);
    lemma_spaced_chars(dedup_sorted(gen_successors(g, i as usize)));
    assert forall|k: int| 0 <= k < l.len() - 1 implies #[trigger] l[k] != '\n' by {
        if k < d.len() {
            assert(l[k] == d[k]);
            assert(is_digit(d[k]));
        } else if k == d.len() {
        } else if k < d.len() + 1 + sp.len() {
            assert(l[k] == sp[k - d.len() - 1]);
        }
    }
}

/// The vertex lines written in full are the lines one by one.
proof fn lemma_lines_equal(g: Seq<Seq<Seq<usize>>>, h: Seq<Seq<Seq<usize>>>, n: nat, k: nat)
    requires
        hash_vertex_lines(g, n, k) == hash_vertex_lines(h, n, k),
    ensures
        forall|i: nat| i < k ==> #[trigger] hash_vertex_line(g, n, i) == hash_vertex_line(h, n, i),
    decreases k,
{
    if k > 0 {
        let j = (k - 1) as nat;
        let lg = hash_vertex_line(g, n, j);
        let lh = hash_vertex_line(h, n, j);
        let pg = hash_vertex_lines(g, n, j);
        let ph = hash_vertex_lines(h, n, j);
        lemma_line_shape(g, n, j);
        lemma_line_shape(h, n, j);
        let x = pg + lg;
        assert(x == ph + lh);
        // Drop the final line break, then cut at the last remaining one.
        assert(x.drop_last() =~= pg + lg.drop_last());
        assert((ph + lh).drop_last() =~= ph + lh.drop_last());
        let tg = lg.drop_last();
        let th = lh.drop_last();
        assert forall|i: int| 0 <= i < tg.len() implies #[trigger] tg[i] != '\n' by {
            assert(tg[i] == lg[i]);
        }
        assert forall|i: int| 0 <= i < th.len() implies #[trigger] th[i] != '\n' by {
            assert(th[i] == lh[i]);
        }
        if j == 0 {
            assert(pg == Seq::<char>::empty());
            assert(ph == Seq::<char>::empty());
            assert(pg + lg =~= lg);
            assert(ph + lh =~= lh);
        } else {
            let jj = (j - 1) as nat;
            lemma_line_shape(g, n, jj);
            lemma_line_shape(h, n, jj);
            let lg2 = hash_vertex_line(g, n, jj);
            let lh2 = hash_vertex_line(h, n, jj);
            assert(pg == hash_vertex_lines(g, n, jj) + lg2);
            assert(ph == hash_vertex_lines(h, n, jj) + lh2);
            assert(pg =~= pg.drop_last() + seq!['\n']);
            assert(ph =~= ph.drop_last() + seq!['\n']);
            assert(pg + tg =~= pg.drop_last() + seq!['\n'] + tg);
            assert(ph + th =~= ph.drop_last() + seq!['\n'] + th);
            lemma_last_separator(pg.drop_last(), tg, ph.drop_last(), th, '\n');
            assert(pg =~= ph);
            assert(lg =~= tg.push('\n'));
            assert(lh =~= th.push('\n'));
        }
        assert(pg == ph);
        assert(lg == lh) by {
            assert(x.skip(pg.len() as int) =~= lg);
            assert((ph + lh).skip(ph.len() as int) =~= lh);
        }
        lemma_lines_equal(g, h, n, j);
    }
}

/// Equal vertex lines list the same distinct successors.
proof fn lemma_line_successors(g: Seq<Seq<Seq<usize>>>, h: Seq<Seq<Seq<usize>>>, n: nat, i: nat)
    requires
        hash_vertex_line(g, n, i) == hash_vertex_line(h, n, i),
    ensures
        dedup_sorted(gen_successors(g, i as usize)) == dedup_sorted(gen_successors(h, i as usize)),
{
    let p = dec(i) + seq![':'];
    let e = if i + 1 == n {
        seq!['.', '\n']
    } else {
        seq![';', '\n']
    };
    let a = dedup_sorted(gen_successors(g, i as usize));
    let b = dedup_sorted(gen_successors(h, i as usize));
    assert(hash_vertex_line(g, n, i) == p + spaced_numbers(a) + e);
    assert(hash_vertex_line(h, n, i) == p + spaced_numbers(b) + e);
    lemma_cancel_ends(p, spaced_numbers(a), spaced_numbers(b), e);
    lemma_spaced_injective(a, b);
}

/// Equal vertex lines up to `k` give equal texts.
proof fn lemma_lines_from_lines(g: Seq<Seq<Seq<usize>>>, h: Seq<Seq<Seq<usize>>>, n: nat, k: nat)
    requires
        forall|i: nat| i < k ==> #[trigger] hash_vertex_line(g, n, i) == hash_vertex_line(h, n, i),
    ensures
        hash_vertex_lines(g, n, k) == hash_vertex_lines(h, n, k),
    decreases k,
{
    if k > 0 {
        lemma_lines_from_lines(g, h, n, (k - 1) as nat);
        assert(hash_vertex_line(g, n, (k - 1) as nat) == hash_vertex_line(h, n, (k - 1) as nat));
    }
}

proof fn lemma_succ_upto_source(c: Seq<usize>, u: usize, m: int, n: nat)
    requires
        0 <= m <= c.len(),
        forall|k: int| 0 <= k < c.len() ==> #[trigger] c[k] < n,
        succ_upto(c, u, m).len() > 0,
    ensures
        u < n,
    decreases m,
{
    if m > 0 && c[m - 1] != u {
        lemma_succ_upto_source(c, u, m - 1, n);
    }
}

proof fn lemma_op_source(op: Seq<Seq<usize>>, u: usize, n: nat)
    requires
        forall|j: int, k: int|
            0 <= j < op.len() && 2 <= op[j].len() && 0 <= k < op[j].len() ==> #[trigger] op[j][k] < n,
        op_successors(op, u).len() > 0,
    ensures
        u < n,
    decreases op.len(),
{
    let o2 = op.drop_last();
    let c = op.last();
    if cycle_successors(c, u).len() > 0 {
        assert(c == op[op.len() - 1]);
        assert forall|k: int| 0 <= k < c.len() implies #[trigger] c[k] < n by {
            assert(op[op.len() - 1][k] < n);
        }
        lemma_succ_upto_source(c, u, c.len() as int, n);
    } else {
        assert forall|j: int, k: int|
            0 <= j < o2.len() && 2 <= o2[j].len() && 0 <= k < o2[j].len() implies #[trigger] o2[j][k] < n by {
            assert(o2[j] == op[j]);
        }
        lemma_op_source(o2, u, n);
    }
}

/// Only vertices below `n` have successors.
proof fn lemma_gen_source(g: Seq<Seq<Seq<usize>>>, u: usize, n: nat)
    requires
        vertices_below(g, n),
        gen_successors(g, u).len() > 0,
    ensures
        u < n,
    decreases g.len(),
{
    let g2 = g.drop_last();
    if op_successors(g.last(), u).len() > 0 {
        let op = g.last();
        assert(op == g[g.len() - 1]);
        assert forall|j: int, k: int|
            0 <= j < op.len() && 2 <= op[j].len() && 0 <= k < op[j].len() implies #[trigger] op[j][k] < n by {
            assert(g[g.len() - 1][j][k] < n);
        }
        lemma_op_source(op, u, n);
    } else {
        assert forall|i: int, j: int, k: int|
            0 <= i < g2.len() && 0 <= j < g2[i].len() && 2 <= g2[i][j].len() && 0 <= k < g2[i][j].len()
            implies #[trigger] g2[i][j][k] < n by {
            assert(g2[i] == g[i]);
        }
        lemma_gen_source(g2, u, n);
    }
}

/// Cycle `c`, of two or more elements, sends `u` to `v`: some element `u`
/// is followed by `v`, the last element by the first.
pub open spec fn cycle_sends(c: Seq<usize>, u: usize, v: usize) -> bool {
    &&& c.len() >= 2
    &&& exists|k: int| 0 <= k < c.len() && #[trigger] c[k] == u && c[(k + 1) % (c.len() as int)] == v
}

/// The edges of the orbit graph: `(c[k], c[(k + 1) % len])` for every
/// cycle `c` of two or more elements of every operation.
pub open spec fn orbit_edges(g: Seq<Seq<Seq<usize>>>) -> Set<(usize, usize)> {
    Set::new(
        |e: (usize, usize)|
            exists|i: int, j: int|
                0 <= i < g.len() && 0 <= j < g[i].len() && #[trigger] cycle_sends(g[i][j], e.0, e.1),
    )
}

proof fn lemma_succ_upto_contains(c: Seq<usize>, u: usize, v: usize, m: int)
    requires
        c.len() >= 2,
        0 <= m <= c.len(),
    ensures
        succ_upto(c, u, m).contains(v) <==> exists|k: int|
            0 <= k < m && #[trigger] c[k] == u && c[(k + 1) % (c.len() as int)] == v,
    decreases m,
{
    if m > 0 {
        lemma_succ_upto_contains(c, u, v, m - 1);
        let prev = succ_upto(c, u, m - 1);
        if c[m - 1] == u {
            let t = prev.push(c[m % (c.len() as int)]);
            assert(t.contains(v) <==> prev.contains(v) || c[m % (c.len() as int)] == v) by {
                if t.contains(v) {
                    let x = choose|x: int| 0 <= x < t.len() && t[x] == v;
                    if x < prev.len() {
                        assert(prev[x] == v);
                    }
                }
                if prev.contains(v) {
                    let x = choose|x: int| 0 <= x < prev.len() && prev[x] == v;
                    assert(t[x] == v);
                }
                if c[m % (c.len() as int)] == v {
                    assert(t[prev.len() as int] == v);
                }
            }
        }
        assert((exists|k: int| 0 <= k < m && #[trigger] c[k] == u && c[(k + 1) % (c.len() as int)] == v)
            <==> (exists|k: int| 0 <= k < m - 1 && #[trigger] c[k] == u && c[(k + 1) % (c.len() as int)] == v)
            || (c[m - 1] == u && c[m % (c.len() as int)] == v)) by {
            if exists|k: int| 0 <= k < m && #[trigger] c[k] == u && c[(k + 1) % (c.len() as int)] == v {
                let k = choose|k: int| 0 <= k < m && #[trigger] c[k] == u && c[(k + 1) % (c.len() as int)] == v;
                if k == m - 1 {
                } else {
                    assert(0 <= k < m - 1 && c[k] == u && c[(k + 1) % (c.len() as int)] == v);
                }
            }
        }
    }
}

proof fn lemma_cycle_successors_contains(c: Seq<usize>, u: usize, v: usize)
    ensures
        cycle_successors(c, u).contains(v) <==> cycle_sends(c, u, v),
{
    if c.len() >= 2 {
        lemma_succ_upto_contains(c, u, v, c.len() as int);
    }
}

proof fn lemma_op_successors_contains(op: Seq<Seq<usize>>, u: usize, v: usize)
    ensures
        op_successors(op, u).contains(v) <==> exists|j: int| 0 <= j < op.len() && #[trigger] cycle_sends(op[j], u, v),
    decreases op.len(),
{
    if op.len() > 0 {
        let o2 = op.drop_last();
        lemma_op_successors_contains(o2, u, v);
        lemma_cycle_successors_contains(op.last(), u, v);
        let a = op_successors(o2, u);
        let b = cycle_successors(op.last(), u);
        assert((a + b).contains(v) <==> a.contains(v) || b.contains(v)) by {
            if (a + b).contains(v) {
                let x = choose|x: int| 0 <= x < (a + b).len() && (a + b)[x] == v;
                if x < a.len() {
                    assert(a[x] == v);
                } else {
                    assert(b[x - a.len()] == v);
                }
            }
            if a.contains(v) {
                let x = choose|x: int| 0 <= x < a.len() && a[x] == v;
                assert((a + b)[x] == v);
            }
            if b.contains(v) {
                let x = choose|x: int| 0 <= x < b.len() && b[x] == v;
                assert((a + b)[a.len() + x] == v);
            }
        }
        if exists|j: int| 0 <= j < op.len() && #[trigger] cycle_sends(op[j], u, v) {
            let j = choose|j: int| 0 <= j < op.len() && #[trigger] cycle_sends(op[j], u, v);
            if j < o2.len() {
                assert(o2[j] == op[j]);
            } else {
                assert(op.last() == op[j]);
            }
        }
        if a.contains(v) {
            let j = choose|j: int| 0 <= j < o2.len() && #[trigger] cycle_sends(o2[j], u, v);
            assert(op[j] == o2[j]);
        }
        if b.contains(v) {
            assert(op[op.len() - 1] == op.last());
        }
    }
}

proof fn lemma_gen_successors_contains(g: Seq<Seq<Seq<usize>>>, u: usize, v: usize)
    ensures
        gen_successors(g, u).contains(v) <==> exists|i: int, j: int|
            0 <= i < g.len() && 0 <= j < g[i].len() && #[trigger] cycle_sends(g[i][j], u, v),
    decreases g.len(),
{
    if g.len() > 0 {
        let g2 = g.drop_last();
        lemma_gen_successors_contains(g2, u, v);
        lemma_op_successors_contains(g.last(), u, v);
        let a = gen_successors(g2, u);
        let b = op_successors(g.last(), u);
        assert((a + b).contains(v) <==> a.contains(v) || b.contains(v)) by {
            if (a + b).contains(v) {
                let x = choose|x: int| 0 <= x < (a + b).len() && (a + b)[x] == v;
                if x < a.len() {
                    assert(a[x] == v);
                } else {
                    assert(b[x - a.len()] == v);
                }
            }
            if a.contains(v) {
                let x = choose|x: int| 0 <= x < a.len() && a[x] == v;
                assert((a + b)[x] == v);
            }
            if b.contains(v) {
                let x = choose|x: int| 0 <= x < b.len() && b[x] == v;
                assert((a + b)[a.len() + x] == v);
            }
        }
        if exists|i: int, j: int| 0 <= i < g.len() && 0 <= j < g[i].len() && #[trigger] cycle_sends(g[i][j], u, v) {
            let (i, j) = choose|i: int, j: int|
                0 <= i < g.len() && 0 <= j < g[i].len() && #[trigger] cycle_sends(g[i][j], u, v);
            if i < g2.len() {
                assert(g2[i] == g[i]);
            } else {
                assert(g.last() == g[i]);
            }
        }
        if a.contains(v) {
            let (i, j) = choose|i: int, j: int|
                0 <= i < g2.len() && 0 <= j < g2[i].len() && #[trigger] cycle_sends(g2[i][j], u, v);
            assert(g[i] == g2[i]);
        }
        if b.contains(v) {
            let j = choose|j: int| 0 <= j < g.last().len() && #[trigger] cycle_sends(g.last()[j], u, v);
            assert(g[g.len() - 1] == g.last());
        }
    }
}

/// Two generators whose cycles stay below `n` get the same hash script
/// (`orbit_graph_hash_script`) exactly when their orbit graphs have the same
/// edges: rotating a cycle, reordering cycles or operations, or repeating an
/// operation never changes the script, and any other change of the edges
/// does.
pub proof fn lemma_hash_script_determines_edges(
    g: Seq<Seq<Seq<usize>>>,
    h: Seq<Seq<Seq<usize>>>,
    n: nat,
)
    requires
        vertices_below(g, n),
        vertices_below(h, n),
        n <= usize::MAX,
    ensures
        hash_script(g, n) == hash_script(h, n) <==> orbit_edges(g) == orbit_edges(h),
{
    let pre = "l=0\n-m\n"@ + "Ad\nd\n"@ + "n="@ + dec(n) + " g\n"@;
    let post = "c -a\nx\nz\n"@;
    assert(hash_script(g, n) =~= pre + hash_vertex_lines(g, n, n) + post);
    assert(hash_script(h, n) =~= pre + hash_vertex_lines(h, n, n) + post);
    if hash_script(g, n) == hash_script(h, n) {
        lemma_cancel_ends(pre, hash_vertex_lines(g, n, n), hash_vertex_lines(h, n, n), post);
        lemma_lines_equal(g, h, n, n);
        assert forall|e: (usize, usize)| #[trigger] orbit_edges(g).contains(e) <==> orbit_edges(h).contains(e) by {
            let u = e.0;
            lemma_gen_successors_contains(g, e.0, e.1);
            lemma_gen_successors_contains(h, e.0, e.1);
            if u < n {
                let i = u as nat;
                assert(hash_vertex_line(g, n, i) == hash_vertex_line(h, n, i));
                lemma_line_successors(g, h, n, i);
                assert(i as usize == u);
                lemma_dedup_sorted(gen_successors(g, u));
                lemma_dedup_sorted(gen_successors(h, u));
                assert(gen_successors(g, u).to_set() == gen_successors(h, u).to_set());
                assert(gen_successors(g, u).contains(e.1) <==> gen_successors(g, u).to_set().contains(e.1));
                assert(gen_successors(h, u).contains(e.1) <==> gen_successors(h, u).to_set().contains(e.1));
            } else {
                if gen_successors(g, u).len() > 0 {
                    lemma_gen_source(g, u, n);
                }
                if gen_successors(h, u).len() > 0 {
                    lemma_gen_source(h, u, n);
                }
            }
        }
        assert(orbit_edges(g) =~= orbit_edges(h));
    }
    if orbit_edges(g) == orbit_edges(h) {
        assert forall|i: nat| i < n implies #[trigger] hash_vertex_line(g, n, i) == hash_vertex_line(h, n, i) by {
            let u = i as usize;
            let sg = gen_successors(g, u);
            let sh = gen_successors(h, u);
            assert forall|v: usize| sg.to_set().contains(v) <==> sh.to_set().contains(v) by {
                lemma_gen_successors_contains(g, u, v);
                lemma_gen_successors_contains(h, u, v);
                let e = (u, v);
                assert(e.0 == u && e.1 == v);
                assert(orbit_edges(g).contains(e) == orbit_edges(h).contains(e));
                assert(orbit_edges(g).contains(e) <==> gen_successors(g, u).contains(v));
                assert(orbit_edges(h).contains(e) <==> gen_successors(h, u).contains(v));
                assert(sg.to_set().contains(v) <==> sg.contains(v));
                assert(sh.to_set().contains(v) <==> sh.contains(v));
            }
            assert(sg.to_set() =~= sh.to_set());
            lemma_dedup_sorted(sg);
            lemma_dedup_sorted(sh);
            lemma_strictly_increasing_unique(dedup_sorted(sg), dedup_sorted(sh));
        }
        lemma_lines_from_lines(g, h, n, n);
    }
}

} // verus!
