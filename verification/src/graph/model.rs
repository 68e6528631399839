//! The mathematical model of an undirected graph on the vertices `0..n`: the sequence of
//! neighbour sets, and the operations the algorithms apply to it.

use vstd::prelude::*;
use vstd::relations::injective_on;
use vstd::set_lib::*;

verus! {

/// A graph as the sequence of its neighbour sets.
pub type Nbrs = Seq<Set<int>>;

/// Whether `g` is a simple undirected graph on `0..g.len()`: neighbours lie in range, no vertex
/// is its own neighbour, and adjacency is symmetric.
pub open spec fn is_graph(g: Nbrs) -> bool {
    forall|i: int, j: int|
        0 <= i < g.len() && #[trigger] g[i].contains(j) ==> 0 <= j < g.len() && j != i && g[j].contains(i)
}

/// The edges of `g` as pairs `(a, b)` with `a < b`.
pub open spec fn edge_pairs(g: Nbrs) -> Set<(int, int)> {
    Set::new(|p: (int, int)| 0 <= p.0 < p.1 < g.len() && g[p.0].contains(p.1))
}

/// The number of edges of `g`.
pub open spec fn num_edges(g: Nbrs) -> nat {
    edge_pairs(g).len()
}

/// The graph on `n` vertices without edges.
pub open spec fn empty_graph(n: int) -> Nbrs {
    Seq::new(n as nat, |i: int| Set::<int>::empty())
}

/// The vertex after `i` on the cycle `0 - 1 - ... - (n-1) - 0`: `(i + 1) % n`.
pub open spec fn next_around(i: int, n: int) -> int {
    if i + 1 == n {
        0
    } else {
        i + 1
    }
}

/// The cycle `0 - 1 - ... - (n-1) - 0` (for `n == 2`, a single edge).
pub open spec fn cycle_graph(n: int) -> Nbrs {
    Seq::new(
        n as nat,
        |i: int|
            Set::new(
                |j: int| 0 <= j < n && j != i && (j == next_around(i, n) || i == next_around(j, n)),
            ),
    )
}

/// The complete graph on `n` vertices.
pub open spec fn complete_graph(n: int) -> Nbrs {
    Seq::new(n as nat, |i: int| Set::new(|j: int| 0 <= j < n && j != i))
}

/// The path `0 - 1 - ... - (n-1)`.
pub open spec fn path_graph(n: int) -> Nbrs {
    Seq::new(n as nat, |i: int| Set::new(|j: int| 0 <= j < n && (j == i + 1 || i == j + 1)))
}

/// The cycle with only the edges `{i, (i + 1) % n}` for `i < k`.
pub open spec fn cycle_prefix(n: int, k: int) -> Nbrs {
    Seq::new(
        n as nat,
        |a: int|
            Set::new(
                |b: int|
                    0 <= b < n && b != a && ((b == next_around(a, n) && a < k) || (a == next_around(
                        b,
                        n,
                    ) && b < k)),
            ),
    )
}

/// The complete graph with only the edges `{a, b}`, `a < b`, met before `(i, j)` by a double loop.
pub open spec fn complete_prefix(n: int, i: int, j: int) -> Nbrs {
    Seq::new(
        n as nat,
        |a: int|
            Set::new(
                |b: int|
                    0 <= b < n && b != a && (if a < b {
                        a < i || (a == i && b < j)
                    } else {
                        b < i || (b == i && a < j)
                    }),
            ),
    )
}

/// The path with only the edges `{a, a + 1}` for `a < k`.
pub open spec fn path_prefix(n: int, k: int) -> Nbrs {
    Seq::new(
        n as nat,
        |a: int| Set::new(|b: int| 0 <= b < n && ((b == a + 1 && a < k) || (a == b + 1 && b < k))),
    )
}

/// The graph on `n` vertices whose edges are the pairs listed in `es`.
pub open spec fn edges_graph(n: int, es: Seq<(usize, usize)>) -> Nbrs {
    Seq::new(
        n as nat,
        |i: int|
            Set::new(
                |j: int|
                    0 <= j < n && j != i && exists|k: int|
                        0 <= k < es.len() && ((es[k].0 == i && es[k].1 == j) || (es[k].0 == j
                            && es[k].1 == i)),
            ),
    )
}

/// Whether `es` lists the edges of `g`, each once as `(a, b)` with `a < b`.
pub open spec fn lists_edges(es: Seq<(usize, usize)>, g: Nbrs) -> bool {
    &&& es.no_duplicates()
    &&& forall|k: int|
        0 <= k < es.len() ==> #[trigger] es[k].0 < es[k].1 < g.len() && g[es[k].0 as int].contains(
            es[k].1 as int,
        )
    &&& forall|a: int, b: int|
        0 <= a < b < g.len() && #[trigger] g[a].contains(b) ==> exists|k: int|
            0 <= k < es.len() && es[k] == (a as usize, b as usize)
}

/// `g` with the edge `{i, j}` added.
pub open spec fn add_edge_view(g: Nbrs, i: int, j: int) -> Nbrs {
    g.update(i, g[i].insert(j)).update(j, g[j].insert(i))
}

/// `g` with the edge `{i, j}` removed.
pub open spec fn remove_edge_view(g: Nbrs, i: int, j: int) -> Nbrs {
    g.update(i, g[i].remove(j)).update(j, g[j].remove(i))
}

/// The old index of the vertex that has index `i` once vertex `v` is removed.
pub open spec fn unshift(i: int, v: int) -> int {
    if i < v {
        i
    } else {
        i + 1
    }
}

/// The new index of vertex `j` once vertex `v` (other than `j`) is removed.
pub open spec fn shift(j: int, v: int) -> int {
    if j > v {
        j - 1
    } else {
        j
    }
}

/// `g` without vertex `v`; the vertices above `v` move down by one.
pub open spec fn remove_vertex_view(g: Nbrs, v: int) -> Nbrs {
    Seq::new(
        (g.len() - 1) as nat,
        |i: int| Set::new(|j: int| 0 <= j && g[unshift(i, v)].contains(unshift(j, v))),
    )
}

/// The neighbours of `v`, numbered as in `remove_vertex_view(g, v)`.
pub open spec fn shifted_nbrs(g: Nbrs, v: int) -> Set<int> {
    Set::new(|j: int| 0 <= j && g[v].contains(unshift(j, v)))
}

/// `g` with every two distinct vertices of `s` made adjacent.
pub open spec fn clique_view(g: Nbrs, s: Set<int>) -> Nbrs {
    Seq::new(
        g.len(),
        |i: int| Set::new(|j: int| g[i].contains(j) || (s.contains(i) && s.contains(j) && i != j)),
    )
}

/// `g` with vertex `v` eliminated: `v` is removed and its neighbours made pairwise adjacent.
pub open spec fn elim_view(g: Nbrs, v: int) -> Nbrs {
    clique_view(remove_vertex_view(g, v), shifted_nbrs(g, v))
}

/// `g` with the edge `{u, v}` contracted into `u`: `v` is removed and its other neighbours
/// become neighbours of `u`.
pub open spec fn contract_view(g: Nbrs, u: int, v: int) -> Nbrs {
    let r = remove_vertex_view(g, v);
    let nb = shifted_nbrs(g, v);
    let w = shift(u, v);
    Seq::new(
        r.len(),
        |i: int|
            Set::new(
                |j: int|
                    r[i].contains(j) || (i == w && nb.contains(j) && j != w) || (j == w
                        && nb.contains(i) && i != w),
            ),
    )
}

/// The degree of `v`.
pub open spec fn degree(g: Nbrs, v: int) -> nat {
    g[v].len()
}

/// The pairs of neighbours of `v` that are not adjacent, as pairs `(a, b)` with `a < b`.
pub open spec fn fill_pairs(g: Nbrs, v: int) -> Set<(int, int)> {
    Set::new(
        |p: (int, int)| g[v].contains(p.0) && g[v].contains(p.1) && p.0 < p.1 && !g[p.0].contains(p.1),
    )
}

/// The number of edges eliminating `v` adds.
pub open spec fn fill_in(g: Nbrs, v: int) -> nat {
    fill_pairs(g, v).len()
}

/// The smallest `i < n` at which `key` is smallest.
pub open spec fn first_argmin(n: int, key: spec_fn(int) -> int) -> int
    decreases n,
{
    if n <= 1 {
        0
    } else {
        let b = first_argmin(n - 1, key);
        if key(n - 1) < key(b) {
            n - 1
        } else {
            b
        }
    }
}

pub proof fn lemma_first_argmin(n: int, key: spec_fn(int) -> int)
    requires
        n >= 1,
    ensures
        0 <= first_argmin(n, key) < n,
        forall|i: int| 0 <= i < n ==> key(first_argmin(n, key)) <= #[trigger] key(i),
        forall|i: int| 0 <= i < first_argmin(n, key) ==> key(first_argmin(n, key)) < #[trigger] key(i),
    decreases n,
{
    if n > 1 {
        lemma_first_argmin(n - 1, key);
    }
}

// ---------------------------------------------------------------------------------------------
// Counting edges
// ---------------------------------------------------------------------------------------------

/// The pairs of integers in `0..n`, each component.
pub open spec fn pair_grid(n: int) -> Set<(int, int)> {
    Set::new(|p: (int, int)| 0 <= p.0 < n && 0 <= p.1 < n)
}

pub proof fn lemma_pair_grid_finite(n: int)
    requires
        n >= 0,
    ensures
        pair_grid(n).finite(),
        n >= 1 ==> pair_grid(n).len() <= n * n,
{
    let m = if n == 0 {
        1
    } else {
        n
    };
    let r = set_int_range(0, m * m);
    lemma_int_range(0, m * m);
    let f = |k: int| (k / m, k % m);
    r.lemma_map_finite(f);
    assert forall|p: (int, int)| pair_grid(n).contains(p) implies r.map(f).contains(p) by {
        let k = p.0 * m + p.1;
        vstd::arithmetic::div_mod::lemma_fundamental_div_mod_converse(k, m, p.0, p.1);
        assert(0 <= k < m * m) by (nonlinear_arith)
            requires
                k == p.0 * m + p.1,
                0 <= p.0 < m,
                0 <= p.1 < m,
        ;
        assert(r.contains(k));
        assert(f(k) == p);
    }
    lemma_set_subset_finite(r.map(f), pair_grid(n));
    lemma_map_size_bound(r, r.map(f), f);
    lemma_len_subset(pair_grid(n), r.map(f));
}

pub proof fn lemma_edge_pairs_finite(g: Nbrs)
    ensures
        edge_pairs(g).finite(),
        num_edges(g) <= g.len() * g.len(),
{
    lemma_pair_grid_finite(g.len() as int);
    lemma_set_subset_finite(pair_grid(g.len() as int), edge_pairs(g));
    if g.len() >= 1 {
        lemma_len_subset(edge_pairs(g), pair_grid(g.len() as int));
    } else {
        assert(edge_pairs(g) =~= Set::empty());
    }
}

pub proof fn lemma_empty_graph_edges(n: int)
    requires
        n >= 0,
    ensures
        num_edges(empty_graph(n)) == 0,
        is_graph(empty_graph(n)),
{
    assert(edge_pairs(empty_graph(n)) =~= Set::empty());
}

/// Adding a missing edge adds one to the count.
pub proof fn lemma_add_edge_count(g: Nbrs, i: int, j: int)
    requires
        is_graph(g),
        0 <= i < g.len(),
        0 <= j < g.len(),
        i != j,
        !g[i].contains(j),
    ensures
        is_graph(add_edge_view(g, i, j)),
        num_edges(add_edge_view(g, i, j)) == num_edges(g) + 1,
{
    let h = add_edge_view(g, i, j);
    let p = if i < j {
        (i, j)
    } else {
        (j, i)
    };
    lemma_edge_pairs_finite(g);
    assert(edge_pairs(h) =~= edge_pairs(g).insert(p));
}

/// Removing an edge subtracts one from the count.
pub proof fn lemma_remove_edge_count(g: Nbrs, i: int, j: int)
    requires
        is_graph(g),
        0 <= i < g.len(),
        0 <= j < g.len(),
        g[i].contains(j),
    ensures
        is_graph(remove_edge_view(g, i, j)),
        num_edges(remove_edge_view(g, i, j)) + 1 == num_edges(g),
{
    let h = remove_edge_view(g, i, j);
    let p = if i < j {
        (i, j)
    } else {
        (j, i)
    };
    lemma_edge_pairs_finite(g);
    assert(edge_pairs(h) =~= edge_pairs(g).remove(p));
}

/// The neighbour sets of a graph are finite.
pub proof fn lemma_nbrs_finite(g: Nbrs, v: int)
    requires
        is_graph(g),
        0 <= v < g.len(),
    ensures
        g[v].finite(),
        g[v].subset_of(set_int_range(0, g.len() as int)),
{
    lemma_int_range(0, g.len() as int);
    lemma_set_subset_finite(set_int_range(0, g.len() as int), g[v]);
}

/// Removing a vertex keeps a graph a graph.
pub proof fn lemma_remove_vertex_graph(g: Nbrs, v: int)
    requires
        is_graph(g),
        0 <= v < g.len(),
    ensures
        is_graph(remove_vertex_view(g, v)),
        remove_vertex_view(g, v).len() == g.len() - 1,
{
    let r = remove_vertex_view(g, v);
    assert forall|i: int, j: int| 0 <= i < r.len() && #[trigger] r[i].contains(j) implies 0 <= j
        < r.len() && j != i && r[j].contains(i) by {
        assert(g[unshift(i, v)].contains(unshift(j, v)));
    }
}

/// Removing a vertex removes as many edges as it has neighbours.
pub proof fn lemma_remove_vertex_count(g: Nbrs, v: int)
    requires
        is_graph(g),
        0 <= v < g.len(),
    ensures
        num_edges(remove_vertex_view(g, v)) + degree(g, v) == num_edges(g),
{
    let e = edge_pairs(g);
    let r = remove_vertex_view(g, v);
    lemma_edge_pairs_finite(g);
    lemma_edge_pairs_finite(r);
    lemma_nbrs_finite(g, v);
    let ev = e.filter(|p: (int, int)| p.0 == v || p.1 == v);
    let eo = e.filter(|p: (int, int)| !(p.0 == v || p.1 == v));
    assert(e =~= ev.union(eo));
    lemma_set_disjoint_lens(ev, eo);
    // the edges at v correspond to the neighbours of v
    let f = |p: (int, int)|
        if p.0 == v {
            p.1
        } else {
            p.0
        };
    assert(injective_on(f, ev));
    assert forall|x: int| g[v].contains(x) implies ev.map(f).contains(x) by {
        let p = if v < x {
            (v, x)
        } else {
            (x, v)
        };
        assert(ev.contains(p));
        assert(f(p) == x);
    }
    assert(ev.map(f) =~= g[v]);
    lemma_map_size(ev, g[v], f);
    // the other edges correspond to the edges of the smaller graph
    let h = |p: (int, int)| (shift(p.0, v), shift(p.1, v));
    assert(injective_on(h, eo)) by {
        assert forall|p: (int, int), q: (int, int)|
            eo.contains(p) && eo.contains(q) && #[trigger] h(p) == #[trigger] h(q) implies p == q by {
            assert(unshift(shift(p.0, v), v) == p.0);
            assert(unshift(shift(p.1, v), v) == p.1);
            assert(unshift(shift(q.0, v), v) == q.0);
            assert(unshift(shift(q.1, v), v) == q.1);
        }
    }
    assert forall|p: (int, int)| edge_pairs(r).contains(p) implies eo.map(h).contains(p) by {
        let q = (unshift(p.0, v), unshift(p.1, v));
        assert(eo.contains(q));
        assert(h(q) == p);
    }
    assert forall|p: (int, int)| eo.map(h).contains(p) implies edge_pairs(r).contains(p) by {
        let q = choose|q: (int, int)| eo.contains(q) && h(q) == p;
        assert(unshift(p.0, v) == q.0 && unshift(p.1, v) == q.1);
    }
    assert(eo.map(h) =~= edge_pairs(r));
    lemma_map_size(eo, edge_pairs(r), h);
}

/// The shifted neighbours of `v` are vertices of the smaller graph.
pub proof fn lemma_shifted_nbrs(g: Nbrs, v: int)
    requires
        is_graph(g),
        0 <= v < g.len(),
    ensures
        forall|j: int| #[trigger] shifted_nbrs(g, v).contains(j) ==> 0 <= j < g.len() - 1,
{
    assert forall|j: int| #[trigger] shifted_nbrs(g, v).contains(j) implies 0 <= j < g.len() - 1 by {
        assert(g[v].contains(unshift(j, v)));
    }
}

/// Making a set of vertices a clique keeps a graph a graph.
pub proof fn lemma_clique_graph(g: Nbrs, s: Set<int>)
    requires
        is_graph(g),
        forall|j: int| #[trigger] s.contains(j) ==> 0 <= j < g.len(),
    ensures
        is_graph(clique_view(g, s)),
{
}

/// Eliminating a vertex keeps a graph a graph.
pub proof fn lemma_elim_graph(g: Nbrs, v: int)
    requires
        is_graph(g),
        0 <= v < g.len(),
    ensures
        is_graph(elim_view(g, v)),
        elim_view(g, v).len() == g.len() - 1,
{
    lemma_remove_vertex_graph(g, v);
    lemma_shifted_nbrs(g, v);
    lemma_clique_graph(remove_vertex_view(g, v), shifted_nbrs(g, v));
}

/// Contracting an edge keeps a graph a graph.
pub proof fn lemma_contract_graph(g: Nbrs, u: int, v: int)
    requires
        is_graph(g),
        0 <= v < g.len(),
        0 <= u < g.len(),
        u != v,
    ensures
        is_graph(contract_view(g, u, v)),
        contract_view(g, u, v).len() == g.len() - 1,
{
    lemma_remove_vertex_graph(g, v);
    lemma_shifted_nbrs(g, v);
}

/// Orders vertices by degree.
pub open spec fn degree_key(g: Nbrs) -> spec_fn(int) -> int {
    |v: int| degree(g, v) as int
}

/// Orders vertices by fill-in, then by degree.
pub open spec fn fill_degree_key(g: Nbrs) -> spec_fn(int) -> int {
    |v: int| (fill_in(g, v) * (g.len() + 1) + degree(g, v)) as int
}

/// The first vertex of minimum degree.
pub open spec fn min_degree_choice(g: Nbrs) -> int {
    first_argmin(g.len() as int, degree_key(g))
}

/// The first vertex of minimum fill-in, ties broken by smaller degree.
pub open spec fn min_fill_choice(g: Nbrs) -> int {
    first_argmin(g.len() as int, fill_degree_key(g))
}

/// The degree of a vertex is below the number of vertices.
pub proof fn lemma_degree_bound(g: Nbrs, v: int)
    requires
        is_graph(g),
        0 <= v < g.len(),
    ensures
        degree(g, v) < g.len(),
{
    lemma_nbrs_finite(g, v);
    lemma_int_range(0, g.len() as int);
    assert(g[v].subset_of(set_int_range(0, g.len() as int).remove(v)));
    lemma_len_subset(g[v], set_int_range(0, g.len() as int).remove(v));
}

/// Comparing `f * (n + 1) + d` compares `f` first, then `d`, when `d` stays below `n + 1`.
pub proof fn lemma_lex_key(f1: int, d1: int, f2: int, d2: int, n: int)
    requires
        0 <= d1 <= n,
        0 <= d2 <= n,
        f1 >= 0,
        f2 >= 0,
    ensures
        (f1 * (n + 1) + d1 < f2 * (n + 1) + d2) == (f1 < f2 || (f1 == f2 && d1 < d2)),
{
    if f1 < f2 {
        assert(f1 * (n + 1) + n + 1 <= f2 * (n + 1)) by (nonlinear_arith)
            requires
                f1 < f2,
                n >= 0,
        ;
    } else if f1 > f2 {
        assert(f2 * (n + 1) + n + 1 <= f1 * (n + 1)) by (nonlinear_arith)
            requires
                f2 < f1,
                n >= 0,
        ;
    }
}

/// A vertex's fill-in and degree together stay below the square of the number of vertices.
pub proof fn lemma_fill_degree_bound(g: Nbrs, v: int)
    requires
        is_graph(g),
        0 <= v < g.len(),
    ensures
        fill_pairs(g, v).finite(),
        fill_in(g, v) + degree(g, v) <= g.len() * g.len(),
        degree(g, v) < g.len(),
{
    let n = g.len() as int;
    let grid = pair_grid(n);
    let f = |x: int| (v, x);
    let row = set_int_range(0, n).map(f);
    lemma_pair_grid_finite(n);
    lemma_int_range(0, n);
    assert(injective_on(f, set_int_range(0, n))) by {
        assert forall|x: int, y: int|
            set_int_range(0, n).contains(x) && set_int_range(0, n).contains(y) && #[trigger] f(x)
                == #[trigger] f(y) implies x == y by {}
    }
    lemma_map_size(set_int_range(0, n), row, f);
    assert(row.subset_of(grid)) by {
        assert forall|p: (int, int)| row.contains(p) implies grid.contains(p) by {
            let x = choose|x: int| set_int_range(0, n).contains(x) && f(x) == p;
        }
    }
    assert(grid.intersect(row) =~= row);
    lemma_set_difference_len(grid, row);
    assert(fill_pairs(g, v).subset_of(grid.difference(row))) by {
        assert forall|p: (int, int)| fill_pairs(g, v).contains(p) implies grid.difference(row).contains(p) by {
            if row.contains(p) {
                let x = choose|x: int| set_int_range(0, n).contains(x) && f(x) == p;
            }
        }
    }
    lemma_len_subset(fill_pairs(g, v), grid.difference(row));
    lemma_degree_bound(g, v);
}

} // verus!
