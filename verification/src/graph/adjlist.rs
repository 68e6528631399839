//! An undirected graph stored as adjacency lists: one vector of neighbours per vertex.

use vstd::prelude::*;
use vstd::string::StringSliceAdditionalSpecFns;
use crate::utils::g6::{
    ascii_chars, ascii_string, data_start, edges_in_triangle, edges_within, encodes, get_edges, get_size,
    lemma_scan_encoded, lemma_size_back, scan_bytes, size_readable, spec_get_size, spec_to_size, to_edges,
    to_size, Error,
};
use crate::graph::model::{
    complete_graph, complete_prefix, cycle_graph, cycle_prefix, path_prefix, edges_graph, lists_edges, next_around, path_graph,
    add_edge_view, clique_view, contract_view, degree, elim_view, fill_in, fill_pairs,
    first_argmin, lemma_first_argmin, degree_key, fill_degree_key, lemma_degree_bound,
    lemma_lex_key, min_degree_choice, min_fill_choice, lemma_nbrs_finite, lemma_pair_grid_finite, pair_grid, lemma_contract_graph,
    lemma_elim_graph, lemma_shifted_nbrs, shifted_nbrs, empty_graph, is_graph, lemma_add_edge_count, lemma_edge_pairs_finite,
    lemma_empty_graph_edges, lemma_remove_edge_count, lemma_remove_vertex_count,
    lemma_remove_vertex_graph, num_edges, remove_edge_view, remove_vertex_view, shift, unshift, Nbrs,
};

verus! {

/// The neighbour sets that adjacency lists describe.
pub open spec fn lists_view(lists: Seq<Seq<usize>>) -> Nbrs {
    Seq::new(
        lists.len(),
        |i: int| Set::new(|j: int| 0 <= j < lists.len() && lists[i].contains(j as usize)),
    )
}

/// Adjacency lists without repeated entries whose entries are vertices.
pub open spec fn lists_ok(lists: Seq<Seq<usize>>) -> bool {
    forall|i: int|
        0 <= i < lists.len() ==> (#[trigger] lists[i]).no_duplicates() && forall|k: int|
            0 <= k < lists[i].len() ==> lists[i][k] < lists.len()
}

/// The numbers `a, a + 1, ..., b - 1`.
pub open spec fn range_list(a: int, b: int) -> Seq<usize> {
    Seq::new(
        if a < b {
            (b - a) as nat
        } else {
            0
        },
        |k: int| (a + k) as usize,
    )
}

/// The adjacency lists of the complete graph on `n` vertices: each vertex lists the others in
/// increasing order.
pub open spec fn complete_lists(n: int) -> Seq<Seq<usize>> {
    Seq::new(n as nat, |v: int| range_list(0, v) + range_list(v + 1, n))
}

/// The lists of the complete graph once the edges `{a, b}`, `a < b`, met before `(i, j)` by a
/// double loop have been added in that order.
pub open spec fn complete_lists_prefix(n: int, i: int, j: int) -> Seq<Seq<usize>> {
    Seq::new(
        n as nat,
        |v: int|
            if v < i {
                range_list(0, v) + range_list(v + 1, n)
            } else if v == i {
                range_list(0, i) + range_list(i + 1, j)
            } else if v < j {
                range_list(0, i + 1)
            } else {
                range_list(0, i)
            },
    )
}

/// The list holding `x` when `present`, and nothing otherwise.
pub open spec fn maybe(present: bool, x: int) -> Seq<usize> {
    if present {
        seq![x as usize]
    } else {
        Seq::empty()
    }
}

/// The adjacency lists of the path on `n` vertices: each vertex lists the one before it, then
/// the one after it.
pub open spec fn path_lists(n: int) -> Seq<Seq<usize>> {
    Seq::new(n as nat, |v: int| maybe(v >= 1, v - 1) + maybe(v + 1 < n, v + 1))
}

/// The lists of the path once its first `k` edges have been added in order.
pub open spec fn path_lists_prefix(n: int, k: int) -> Seq<Seq<usize>> {
    Seq::new(n as nat, |v: int| maybe(1 <= v <= k, v - 1) + maybe(v < k, v + 1))
}

/// The adjacency lists of the cycle on `n` vertices once its first `k` edges `{i, i + 1 mod n}`
/// have been added in order; on two vertices the second edge is the first one again.
pub open spec fn cycle_lists_prefix(n: int, k: int) -> Seq<Seq<usize>> {
    Seq::new(
        n as nat,
        |v: int|
            maybe(1 <= v <= k, v - 1) + maybe(v < k && (n >= 3 || v == 0), next_around(v, n)) + maybe(
                v == 0 && k == n && n >= 3,
                n - 1,
            ),
    )
}

/// The adjacency lists of the cycle on `n` vertices: vertex 0 lists 1 and then `n - 1`, every
/// other vertex `v` lists `v - 1` and then `v + 1` (mod `n`); on two vertices each lists the
/// other.
pub open spec fn cycle_lists(n: int) -> Seq<Seq<usize>> {
    cycle_lists_prefix(n, n)
}

/// One more number at the end of a range.
proof fn lemma_range_list_push(a: int, b: int)
    requires
        0 <= a <= b,
        b < usize::MAX,
    ensures
        range_list(a, b).push(b as usize) == range_list(a, b + 1),
{
    assert(range_list(a, b).push(b as usize) =~= range_list(a, b + 1));
}

/// An undirected graph on the vertices `0..n`, stored as adjacency lists.
#[derive(Debug, Clone, PartialEq, Eq)]
pub struct Graph {
    n: usize,
    m: usize,
    adjency: Vec<Vec<usize>>,
}

impl Graph {
    /// The adjacency lists.
    pub closed spec fn lists(&self) -> Seq<Seq<usize>> {
        self.adjency@.map_values(|l: Vec<usize>| l@)
    }

    /// The lists are consistent, describe a simple undirected graph, and the edge count is
    /// right.
    pub closed spec fn wf(&self) -> bool {
        &&& self.adjency@.len() == self.n
        &&& lists_ok(self.lists())
        &&& is_graph(lists_view(self.lists()))
        &&& self.m == num_edges(lists_view(self.lists()))
        &&& self.n * self.n <= usize::MAX
    }
}

impl View for Graph {
    type V = Nbrs;

    open spec fn view(&self) -> Nbrs {
        lists_view(self.lists())
    }
}

/// Whether `x` occurs in `v`.
fn list_contains(v: &Vec<usize>, x: usize) -> (r: bool)
    ensures
        r == v@.contains(x),
{
    let mut k: usize = 0;
    while k < v.len()
        invariant
            k <= v.len(),
            forall|a: int| 0 <= a < k ==> v@[a] != x,
        decreases v.len() - k,
    {
        if v[k] == x {
            return true;
        }
        k = k + 1;
    }
    false
}

impl Graph {
    pub proof fn lemma_wf(&self)
        requires
            self.wf(),
        ensures
            is_graph(self@),
            self.lists().len() == self@.len(),
            lists_ok(self.lists()),
            forall|i: int, j: int|
                0 <= i < self@.len() && 0 <= j < self@.len() ==> (#[trigger] self@[i].contains(j)
                    == self.lists()[i].contains(j as usize)),
            self@.len() * self@.len() <= usize::MAX,
    {
    }

    /// Creates a graph with `n` vertices and no edges.
    pub fn new(n: usize) -> (r: Graph)
        requires
            n * n <= usize::MAX,
        ensures
            r.wf(),
            r@ == empty_graph(n as int),
            r.lists() == Seq::new(n as nat, |i: int| Seq::<usize>::empty()),
    {
        let mut adjency: Vec<Vec<usize>> = Vec::new();
        let mut i: usize = 0;
        while i < n
            invariant
                i <= n,
                adjency@.len() == i,
                forall|k: int| 0 <= k < i ==> (#[trigger] adjency@[k])@ == Seq::<usize>::empty(),
            decreases n - i,
        {
            adjency.push(Vec::new());
            i = i + 1;
        }
        let g = Graph { n, m: 0, adjency };
        proof {
            assert(g.lists() =~= Seq::new(n as nat, |i: int| Seq::<usize>::empty()));
            assert forall|k: int| 0 <= k < n implies #[trigger] g@[k] =~= empty_graph(n as int)[k] by {
                assert(g.lists()[k] == Seq::<usize>::empty());
            }
            assert(g@ =~= empty_graph(n as int));
            lemma_empty_graph_edges(n as int);
        }
        g
    }

    /// Creates the cycle on `n` vertices (`n != 1`): vertex `i` is joined to `(i + 1) % n`.
    pub fn new_cycle(n: usize) -> (r: Graph)
        requires
            n * n <= usize::MAX,
            n != 1,
        ensures
            r.wf(),
            r@ == cycle_graph(n as int),
            r.lists() == cycle_lists(n as int),
    {
        let mut graph = Graph::new(n);
        proof {
            let start = cycle_prefix(n as int, 0);
            assert forall|a: int| 0 <= a < n implies #[trigger] graph@[a] =~= start[a] by {}
            assert(graph@ =~= start);
            let lstart = cycle_lists_prefix(n as int, 0);
            assert forall|v: int| 0 <= v < n implies #[trigger] graph.lists()[v] =~= lstart[v] by {}
            assert(graph.lists() =~= lstart);
        }
        let mut i: usize = 0;
        while i < n
            invariant
                i <= n,
                n != 1,
                graph.wf(),
                graph@ == cycle_prefix(n as int, i as int),
                graph.lists() == cycle_lists_prefix(n as int, i as int),
            decreases n - i,
        {
            let j = if i + 1 == n {
                0
            } else {
                i + 1
            };
            let ghost before = graph@;
            let ghost ls = graph.lists();
            assert(i != j);
            let added = graph.add_edge(i, j);
            proof {
                let next = cycle_prefix(n as int, i + 1);
                assert forall|a: int| 0 <= a < n implies #[trigger] graph@[a] =~= next[a] by {
                    if !added {
                        assert(before[i as int].contains(j as int));
                    }
                }
                assert(graph@ =~= next);
                let lnext = cycle_lists_prefix(n as int, i + 1);
                assert(j as int == next_around(i as int, n as int));
                assert forall|v: int| 0 <= v < n implies #[trigger] graph.lists()[v] =~= lnext[v] by {
                    if added {
                        if v == i {
                            assert(graph.lists()[v] == ls[v].push(j));
                        } else if v == j {
                            assert(graph.lists()[v] == ls[v].push(i));
                        }
                    } else {
                        assert(n == 2 && i == 1);
                    }
                }
                assert(graph.lists() =~= lnext);
            }
            i = i + 1;
        }
        proof {
            assert forall|a: int| 0 <= a < n implies #[trigger] graph@[a] =~= cycle_graph(n as int)[a] by {}
            assert(graph@ =~= cycle_graph(n as int));
        }
        graph
    }

    /// Creates the complete graph on `n` vertices.
    pub fn new_complete(n: usize) -> (r: Graph)
        requires
            n * n <= usize::MAX,
        ensures
            r.wf(),
            r@ == complete_graph(n as int),
            r.lists() == complete_lists(n as int),
    {
        let mut graph = Graph::new(n);
        proof {
            let start = complete_prefix(n as int, 0, 0);
            assert forall|a: int| 0 <= a < n implies #[trigger] graph@[a] =~= start[a] by {}
            assert(graph@ =~= start);
            let lstart = complete_lists_prefix(n as int, 0, 1);
            assert forall|v: int| 0 <= v < n implies #[trigger] graph.lists()[v] =~= lstart[v] by {}
            assert(graph.lists() =~= lstart);
        }
        let mut i: usize = 0;
        while i < n
            invariant
                i <= n,
                n * n <= usize::MAX,
                graph.wf(),
                graph@ == complete_prefix(n as int, i as int, 0),
                graph.lists() == complete_lists_prefix(n as int, i as int, i + 1),
            decreases n - i,
        {
            let mut j: usize = i + 1;
            proof {
                let target = complete_prefix(n as int, i as int, j as int);
                assert forall|a: int| 0 <= a < n implies #[trigger] graph@[a] =~= target[a] by {}
                assert(graph@ =~= target);
            }
            while j < n
                invariant
                    i < j <= n,
                    n * n <= usize::MAX,
                    graph.wf(),
                    graph@ == complete_prefix(n as int, i as int, j as int),
                    graph.lists() == complete_lists_prefix(n as int, i as int, j as int),
                decreases n - j,
            {
                let ghost ls = graph.lists();
                proof {
                    assert(!graph@[i as int].contains(j as int));
                }
                graph.add_edge(i, j);
                proof {
                    let next = complete_prefix(n as int, i as int, j + 1);
                    assert forall|a: int| 0 <= a < n implies #[trigger] graph@[a] =~= next[a] by {}
                    assert(graph@ =~= next);
                    let lnext = complete_lists_prefix(n as int, i as int, j + 1);
                    lemma_range_list_push(i + 1, j as int);
                    lemma_range_list_push(0, i as int);
                    assert forall|v: int| 0 <= v < n implies #[trigger] graph.lists()[v] =~= lnext[v] by {
                        if v == i {
                            assert(graph.lists()[v] == ls[v].push(j));
                            assert((range_list(0, i as int) + range_list(i + 1, j as int)).push(j) =~= range_list(0, i as int)
                                + range_list(i + 1, j as int).push(j));
                        } else if v == j {
                            assert(graph.lists()[v] == ls[v].push(i));
                        }
                    }
                    assert(graph.lists() =~= lnext);
                }
                j = j + 1;
            }
            proof {
                let next = complete_prefix(n as int, i + 1, 0);
                assert forall|a: int| 0 <= a < n implies #[trigger] graph@[a] =~= next[a] by {}
                assert(graph@ =~= next);
                let lnext = complete_lists_prefix(n as int, i + 1, i + 2);
                lemma_range_list_push(0, i as int);
                assert forall|v: int| 0 <= v < n implies #[trigger] graph.lists()[v] =~= lnext[v] by {
                    if v == i {
                        assert(range_list(i + 1, j as int) =~= range_list(i + 1, n as int));
                    }
                    if v == i + 1 {
                        assert(range_list(i + 2, i + 2) =~= Seq::<usize>::empty());
                        assert(range_list(0, i + 1) + range_list(i + 2, i + 2) =~= range_list(0, i + 1));
                    }
                }
                assert(graph.lists() =~= lnext);
            }
            i = i + 1;
        }
        proof {
            assert forall|a: int| 0 <= a < n implies #[trigger] graph@[a] =~= complete_graph(n as int)[a] by {}
            assert(graph@ =~= complete_graph(n as int));
            assert forall|v: int| 0 <= v < n implies #[trigger] graph.lists()[v] =~= complete_lists(n as int)[v] by {}
            assert(graph.lists() =~= complete_lists(n as int));
        }
        graph
    }

    /// The number of edges a simple graph on `n` vertices can have, `n (n - 1) / 2`; `None` for
    /// `n == 0` (where `n - 1` is out of range) and when `n (n - 1)` does not fit in a `usize`.
    pub fn max_edge_count(n: usize) -> (r: Option<usize>)
        ensures
            r == if n >= 1 && n * (n - 1) <= usize::MAX {
                Some((n * (n - 1) / 2) as usize)
            } else {
                None::<usize>
            },
    {
        if n == 0 {
            return None;
        }
        match n.checked_mul(n - 1) {
            Some(p) => Some(p / 2),
            None => None,
        }
    }

    /// Creates the path on `n >= 1` vertices: vertex `i` is joined to `i + 1`.
    pub fn new_path(n: usize) -> (r: Graph)
        requires
            n * n <= usize::MAX,
            n >= 1,
        ensures
            r.wf(),
            r@ == path_graph(n as int),
            r.lists() == path_lists(n as int),
    {
        let mut graph = Graph::new(n);
        proof {
            let start = path_prefix(n as int, 0);
            assert forall|a: int| 0 <= a < n implies #[trigger] graph@[a] =~= start[a] by {}
            assert(graph@ =~= start);
            let lstart = path_lists_prefix(n as int, 0);
            assert forall|v: int| 0 <= v < n implies #[trigger] graph.lists()[v] =~= lstart[v] by {}
            assert(graph.lists() =~= lstart);
        }
        let mut i: usize = 0;
        while i < n - 1
            invariant
                i <= n - 1,
                graph.wf(),
                graph@ == path_prefix(n as int, i as int),
                graph.lists() == path_lists_prefix(n as int, i as int),
            decreases n - 1 - i,
        {
            let ghost ls = graph.lists();
            proof {
                assert(!graph@[i as int].contains(i + 1));
            }
            graph.add_edge(i, i + 1);
            proof {
                let next = path_prefix(n as int, i + 1);
                assert forall|a: int| 0 <= a < n implies #[trigger] graph@[a] =~= next[a] by {}
                assert(graph@ =~= next);
                let lnext = path_lists_prefix(n as int, i + 1);
                assert forall|v: int| 0 <= v < n implies #[trigger] graph.lists()[v] =~= lnext[v] by {
                    if v == i {
                        assert(graph.lists()[v] == ls[v].push((i + 1) as usize));
                    } else if v == i + 1 {
                        assert(graph.lists()[v] == ls[v].push(i));
                    }
                }
                assert(graph.lists() =~= lnext);
            }
            i = i + 1;
        }
        proof {
            assert forall|a: int| 0 <= a < n implies #[trigger] graph@[a] =~= path_graph(n as int)[a] by {}
            assert(graph@ =~= path_graph(n as int));
            assert forall|v: int| 0 <= v < n implies #[trigger] graph.lists()[v] =~= path_lists(n as int)[v] by {}
            assert(graph.lists() =~= path_lists(n as int));
        }
        graph
    }

    /// The number of vertices.
    pub fn n(&self) -> (r: usize)
        requires
            self.wf(),
        ensures
            r == self@.len(),
    {
        self.n
    }

    /// The number of edges.
    pub fn m(&self) -> (r: usize)
        requires
            self.wf(),
        ensures
            r == num_edges(self@),
    {
        self.m
    }

    /// Whether the graph has no vertex.
    pub fn is_empty(&self) -> (r: bool)
        requires
            self.wf(),
        ensures
            r == (self@.len() == 0),
    {
        self.n == 0
    }

    /// Whether `i` is a vertex.
    pub fn has_vertex(&self, i: usize) -> (r: bool)
        requires
            self.wf(),
        ensures
            r == (i < self@.len()),
    {
        i < self.n
    }

    /// A copy of the neighbour list of `i`, or `None` when `i` is not a vertex.
    pub fn neighbors(&self, i: usize) -> (r: Option<Vec<usize>>)
        requires
            self.wf(),
        ensures
            i < self@.len() ==> (r matches Some(l) && l@ == self.lists()[i as int]),
            i >= self@.len() ==> r is None,
    {
        if i < self.adjency.len() {
            Some(self.adjency[i].clone())
        } else {
            None
        }
    }

    /// The neighbour list of `i`, or `None` when `i` is not a vertex.
    pub fn neighbors_ref(&self, i: usize) -> (r: Option<&Vec<usize>>)
        requires
            self.wf(),
        ensures
            i < self@.len() ==> (r matches Some(l) && l@ == self.lists()[i as int]),
            i >= self@.len() ==> r is None,
    {
        if i < self.adjency.len() {
            Some(&self.adjency[i])
        } else {
            None
        }
    }

    /// Whether `i` and `j` are adjacent (`false` when either is not a vertex).
    pub fn has_edge(&self, i: usize, j: usize) -> (r: bool)
        requires
            self.wf(),
        ensures
            r == (i < self@.len() && j < self@.len() && self@[i as int].contains(j as int)),
    {
        if i >= self.n || j >= self.n {
            return false;
        }
        list_contains(&self.adjency[i], j)
    }

    /// The degree of `v`.
    pub fn degree(&self, v: usize) -> (r: usize)
        requires
            self.wf(),
            v < self@.len(),
        ensures
            r == degree(self@, v as int),
            r == self.lists()[v as int].len(),
    {
        proof {
            self.lemma_list_set(v as int);
        }
        self.adjency[v].len()
    }

    /// The neighbour set of `v` is the set of entries of its list, as many as the list is long.
    pub proof fn lemma_list_set(&self, v: int)
        requires
            self.wf(),
            0 <= v < self@.len(),
        ensures
            self@[v].finite(),
            self@[v].len() == self.lists()[v].len(),
            forall|j: int| #[trigger] self@[v].contains(j) <==> exists|k: int|
                0 <= k < self.lists()[v].len() && self.lists()[v][k] == j,
    {
        let l = self.lists()[v];
        assert(l.no_duplicates());
        l.unique_seq_to_set();
        let s = l.to_set().map(|x: usize| x as int);
        assert forall|j: int| #[trigger] self@[v].contains(j) <==> exists|k: int|
            0 <= k < l.len() && l[k] == j by {
            if self@[v].contains(j) {
                let k = choose|k: int| 0 <= k < l.len() && l[k] == j as usize;
                assert(l[k] == j);
            }
            if exists|k: int| 0 <= k < l.len() && l[k] == j {
                let k = choose|k: int| 0 <= k < l.len() && l[k] == j;
                assert(l[k] < self.lists().len());
                assert(l.contains(j as usize));
            }
        }
        assert(self@[v] =~= s) by {
            assert forall|j: int| #[trigger] s.contains(j) implies self@[v].contains(j) by {
                let x = choose|x: usize| l.to_set().contains(x) && x as int == j;
                assert(l.contains(x));
                let k = choose|k: int| 0 <= k < l.len() && l[k] == x;
                assert(l[k] == j);
            }
            assert forall|j: int| #[trigger] self@[v].contains(j) implies s.contains(j) by {
                assert(l.to_set().contains(j as usize));
            }
        }
        l.to_set().lemma_map_finite(|x: usize| x as int);
        vstd::set_lib::lemma_map_size(l.to_set(), s, |x: usize| x as int);
    }
}

impl Graph {
    /// Adds the edge `{i, j}`; returns whether it was inserted. A loop (`i == j`) is never
    /// inserted: the graph stays as it was.
    pub fn add_edge(&mut self, i: usize, j: usize) -> (r: bool)
        requires
            old(self).wf(),
            i < old(self)@.len(),
            j < old(self)@.len(),
        ensures
            final(self).wf(),
            r == (i != j && !old(self)@[i as int].contains(j as int)),
            final(self)@ == if r {
                add_edge_view(old(self)@, i as int, j as int)
            } else {
                old(self)@
            },
            final(self).lists() == if r {
                old(self).lists().update(i as int, old(self).lists()[i as int].push(j)).update(
                    j as int,
                    old(self).lists()[j as int].push(i),
                )
            } else {
                old(self).lists()
            },
    {
        if i == j {
            return false;
        }
        proof {
            self.lemma_wf();
        }
        if list_contains(&self.adjency[i], j) {
            return false;
        }
        let ghost g = self@;
        let ghost ls = self.lists();
        proof {
            assert(!ls[j as int].contains(i)) by {
                if ls[j as int].contains(i) {
                    assert(g[j as int].contains(i as int));
                }
            }
            lemma_add_edge_count(g, i as int, j as int);
            lemma_edge_pairs_finite(add_edge_view(g, i as int, j as int));
        }
        self.adjency[i].push(j);
        self.adjency[j].push(i);
        self.m = self.m + 1;
        proof {
            broadcast use vstd::seq_lib::group_seq_properties;

            let nl = ls.update(i as int, ls[i as int].push(j)).update(j as int, ls[j as int].push(i));
            assert(self.lists() =~= nl);
            assert forall|k: int| 0 <= k < nl.len() implies (#[trigger] nl[k]).no_duplicates()
                && forall|a: int| 0 <= a < nl[k].len() ==> nl[k][a] < nl.len() by {
                assert(ls[k].no_duplicates());
            }
            assert(self@ =~= add_edge_view(g, i as int, j as int)) by {
                assert forall|k: int| 0 <= k < g.len() implies #[trigger] self@[k] =~= add_edge_view(
                    g,
                    i as int,
                    j as int,
                )[k] by {
                    assert forall|x: int| #[trigger] self@[k].contains(x) == add_edge_view(
                        g,
                        i as int,
                        j as int,
                    )[k].contains(x) by {
                        if 0 <= x < g.len() {
                            if k == i {
                                assert(nl[k] == ls[k].push(j));
                                assert(ls[k].push(j).contains(x as usize) == (ls[k].contains(
                                    x as usize,
                                ) || x == j));
                            } else if k == j {
                                assert(nl[k] == ls[k].push(i));
                                assert(ls[k].push(i).contains(x as usize) == (ls[k].contains(
                                    x as usize,
                                ) || x == i));
                            } else {
                                assert(nl[k] == ls[k]);
                            }
                        }
                    }
                }
            }
        }
        true
    }

    /// Removes the edge `{i, j}`; returns whether it was present.
    pub fn remove_edge(&mut self, i: usize, j: usize) -> (r: bool)
        requires
            old(self).wf(),
            i < old(self)@.len(),
        ensures
            final(self).wf(),
            r == (j < old(self)@.len() && old(self)@[i as int].contains(j as int)),
            final(self)@ == if r {
                remove_edge_view(old(self)@, i as int, j as int)
            } else {
                old(self)@
            },
            final(self).lists() == if r {
                old(self).lists().update(i as int, without(old(self).lists()[i as int], j)).update(
                    j as int,
                    without(old(self).lists()[j as int], i),
                )
            } else {
                old(self).lists()
            },
    {
        proof {
            self.lemma_wf();
        }
        if !list_contains(&self.adjency[i], j) {
            return false;
        }
        let ghost g = self@;
        let ghost ls = self.lists();
        proof {
            assert(ls[i as int][ls[i as int].index_of(j) as int] == j);
            assert(j < g.len());
            assert(g[i as int].contains(j as int));
            assert(ls[j as int].contains(i));
            lemma_remove_edge_count(g, i as int, j as int);
        }
        let a = Self::position(&self.adjency[i], j);
        self.adjency[i].remove(a);
        let b = Self::position(&self.adjency[j], i);
        self.adjency[j].remove(b);
        self.m = self.m - 1;
        proof {
            let li = ls[i as int].remove(a as int);
            let lj = ls[j as int].remove(b as int);
            let nl = ls.update(i as int, li).update(j as int, lj);
            assert(self.lists() =~= nl);
            lemma_remove_unique(ls[i as int], a as int);
            lemma_remove_unique(ls[j as int], b as int);
            assert(ls[i as int].no_duplicates() && ls[j as int].no_duplicates());
            lemma_remove_is_without(ls[i as int], a as int);
            lemma_remove_is_without(ls[j as int], b as int);
            assert forall|k: int| 0 <= k < nl.len() implies (#[trigger] nl[k]).no_duplicates()
                && forall|c: int| 0 <= c < nl[k].len() ==> nl[k][c] < nl.len() by {
                assert(ls[k].no_duplicates());
                if k == i {
                    assert forall|c: int| 0 <= c < nl[k].len() implies nl[k][c] < nl.len() by {
                        assert(li[c] == if c < a {
                            ls[k][c]
                        } else {
                            ls[k][c + 1]
                        });
                    }
                }
                if k == j {
                    assert forall|c: int| 0 <= c < nl[k].len() implies nl[k][c] < nl.len() by {
                        assert(lj[c] == if c < b {
                            ls[k][c]
                        } else {
                            ls[k][c + 1]
                        });
                    }
                }
            }
            assert(self@ =~= remove_edge_view(g, i as int, j as int)) by {
                assert forall|k: int| 0 <= k < g.len() implies #[trigger] self@[k]
                    =~= remove_edge_view(g, i as int, j as int)[k] by {
                    assert forall|x: int| #[trigger] self@[k].contains(x) == remove_edge_view(
                        g,
                        i as int,
                        j as int,
                    )[k].contains(x) by {
                        if 0 <= x < g.len() {
                            assert(nl[k].contains(x as usize) == (ls[k].contains(x as usize) && !(k
                                == i && x == j) && !(k == j && x == i)));
                        }
                    }
                }
            }
        }
        true
    }

    /// The index at which `x` occurs in `v`.
    fn position(v: &Vec<usize>, x: usize) -> (r: usize)
        requires
            v@.contains(x),
        ensures
            r < v.len(),
            v@[r as int] == x,
    {
        let mut k: usize = 0;
        while k < v.len()
            invariant
                k <= v.len(),
                forall|c: int| 0 <= c < k ==> v@[c] != x,
                v@.contains(x),
            decreases v.len() - k,
        {
            if v[k] == x {
                return k;
            }
            k = k + 1;
        }
        proof {
            let c = choose|c: int| 0 <= c < v.len() && v@[c] == x;
        }
        0
    }
}

/// The list `s` with every entry `x` left out, the others in order.
pub open spec fn without(s: Seq<usize>, x: usize) -> Seq<usize>
    decreases s.len(),
{
    if s.len() == 0 {
        s
    } else if s.last() == x {
        without(s.drop_last(), x)
    } else {
        without(s.drop_last(), x).push(s.last())
    }
}

/// A list without `x` is left as it is.
pub proof fn lemma_without_absent(s: Seq<usize>, x: usize)
    requires
        !s.contains(x),
    ensures
        without(s, x) == s,
    decreases s.len(),
{
    if s.len() > 0 {
        assert(!s.drop_last().contains(x)) by {
            if s.drop_last().contains(x) {
                let k = choose|k: int| 0 <= k < s.drop_last().len() && s.drop_last()[k] == x;
                assert(s[k] == x);
            }
        }
        lemma_without_absent(s.drop_last(), x);
        assert(s.last() != x) by {
            assert(s[s.len() - 1] == s.last());
        }
        assert(s.drop_last().push(s.last()) =~= s);
    }
}

/// In a list without repeated entries, removing the place that holds `x` leaves `x` out.
pub proof fn lemma_remove_is_without(s: Seq<usize>, a: int)
    requires
        s.no_duplicates(),
        0 <= a < s.len(),
    ensures
        s.remove(a) == without(s, s[a]),
    decreases s.len(),
{
    let x = s[a];
    let d = s.drop_last();
    if a == s.len() - 1 {
        assert(!d.contains(x)) by {
            if d.contains(x) {
                let k = choose|k: int| 0 <= k < d.len() && d[k] == x;
                assert(s[k] == s[a]);
            }
        }
        lemma_without_absent(d, x);
        assert(s.remove(a) =~= d);
    } else {
        assert(d.no_duplicates()) by {
            assert forall|i: int, j: int| 0 <= i < d.len() && 0 <= j < d.len() && i != j implies d[i] != d[j] by {
                assert(d[i] == s[i] && d[j] == s[j]);
            }
        }
        assert(d[a] == x);
        lemma_remove_is_without(d, a);
        assert(s.last() != x) by {
            assert(s[s.len() - 1] == s.last());
        }
        assert(s.remove(a) =~= d.remove(a).push(s.last()));
    }
}

/// Removing an edge right after adding it gives back the adjacency lists the graph had, so the
/// same graph with the same edge count.
pub proof fn lemma_remove_undoes_add(g: Graph, i: usize, j: usize)
    requires
        g.wf(),
        i < g@.len(),
        j < g@.len(),
        i != j,
        !g@[i as int].contains(j as int),
    ensures
        ({
            let ls = g.lists();
            let added = ls.update(i as int, ls[i as int].push(j)).update(j as int, ls[j as int].push(i));
            added.update(i as int, without(added[i as int], j)).update(j as int, without(added[j as int], i)) == ls
        }),
{
    g.lemma_wf();
    let ls = g.lists();
    let added = ls.update(i as int, ls[i as int].push(j)).update(j as int, ls[j as int].push(i));
    assert(!ls[i as int].contains(j));
    assert(!ls[j as int].contains(i)) by {
        if ls[j as int].contains(i) {
            assert(g@[j as int].contains(i as int));
        }
    }
    assert(added[i as int] == ls[i as int].push(j));
    assert(added[j as int] == ls[j as int].push(i));
    assert(ls[i as int].push(j).drop_last() =~= ls[i as int]);
    assert(ls[j as int].push(i).drop_last() =~= ls[j as int]);
    lemma_without_absent(ls[i as int], j);
    lemma_without_absent(ls[j as int], i);
    assert(without(added[i as int], j) == ls[i as int]);
    assert(without(added[j as int], i) == ls[j as int]);
    assert(added.update(i as int, without(added[i as int], j)).update(j as int, without(added[j as int], i)) =~= ls);
}

/// Removing an entry from a list without repeated entries removes exactly that value.
pub proof fn lemma_remove_unique(l: Seq<usize>, a: int)
    requires
        l.no_duplicates(),
        0 <= a < l.len(),
    ensures
        l.remove(a).no_duplicates(),
        forall|x: usize| #[trigger] l.remove(a).contains(x) == (l.contains(x) && x != l[a]),
{
    let r = l.remove(a);
    assert forall|x: usize| #[trigger] r.contains(x) == (l.contains(x) && x != l[a]) by {
        if r.contains(x) {
            let c = choose|c: int| 0 <= c < r.len() && r[c] == x;
            let d = if c < a {
                c
            } else {
                c + 1
            };
            assert(l[d] == x);
        }
        if l.contains(x) && x != l[a] {
            let d = choose|d: int| 0 <= d < l.len() && l[d] == x;
            let c = if d < a {
                d
            } else {
                d - 1
            };
            assert(r[c] == x);
        }
    }
}

/// The list `s` without `v`, each entry above `v` moved down by one.
pub open spec fn drop_shift(s: Seq<usize>, v: usize) -> Seq<usize>
    decreases s.len(),
{
    if s.len() == 0 {
        s
    } else {
        let rest = drop_shift(s.drop_last(), v);
        let x = s.last();
        if x == v {
            rest
        } else {
            rest.push(
                if x > v {
                    (x - 1) as usize
                } else {
                    x
                },
            )
        }
    }
}

/// Dropping and shifting a concatenation treats each part on its own.
proof fn lemma_drop_shift_concat(s: Seq<usize>, t: Seq<usize>, v: usize)
    ensures
        drop_shift(s + t, v) == drop_shift(s, v) + drop_shift(t, v),
    decreases t.len(),
{
    if t.len() == 0 {
        assert(s + t =~= s);
        assert(drop_shift(s, v) + drop_shift(t, v) =~= drop_shift(s, v));
    } else {
        lemma_drop_shift_concat(s, t.drop_last(), v);
        assert((s + t).drop_last() =~= s + t.drop_last());
        assert((s + t).last() == t.last());
        let x = t.last();
        if x != v {
            let y = if x > v {
                (x - 1) as usize
            } else {
                x
            };
            assert((drop_shift(s, v) + drop_shift(t.drop_last(), v)).push(y) =~= drop_shift(s, v) + drop_shift(
                t.drop_last(),
                v,
            ).push(y));
        }
    }
}

/// Dropping `v` from the numbers `a..b` and shifting those above it down by one gives a range.
proof fn lemma_drop_shift_range(a: int, b: int, v: usize)
    requires
        0 <= a <= b,
        b <= usize::MAX,
    ensures
        drop_shift(range_list(a, b), v) == range_list(shift(a, v as int), shift(b, v as int)),
    decreases b - a,
{
    if a == b {
        assert(range_list(a, b) =~= Seq::<usize>::empty());
        assert(range_list(shift(a, v as int), shift(b, v as int)) =~= Seq::<usize>::empty());
    } else {
        lemma_drop_shift_range(a, b - 1, v);
        assert(range_list(a, b).drop_last() =~= range_list(a, b - 1));
        assert(range_list(a, b).last() == (b - 1) as usize);
        if b - 1 == v {
            assert(shift(a, v as int) == a);
        } else if b - 1 > v {
            assert(range_list(shift(a, v as int), b - 2).push((b - 2) as usize) =~= range_list(shift(a, v as int), b - 1));
        } else {
            assert(range_list(a, b - 1).push((b - 1) as usize) =~= range_list(a, b));
        }
    }
}

/// Removing a vertex from the complete graph's lists gives the complete graph's lists on one
/// vertex fewer.
pub proof fn lemma_remove_vertex_complete(n: int, v: usize)
    requires
        v < n,
        n <= usize::MAX,
    ensures
        remove_lists(complete_lists(n), v) == complete_lists(n - 1),
{
    let r = remove_lists(complete_lists(n), v);
    assert forall|i: int| 0 <= i < n - 1 implies #[trigger] r[i] == complete_lists(n - 1)[i] by {
        let u = unshift(i, v as int);
        lemma_drop_shift_concat(range_list(0, u), range_list(u + 1, n), v);
        lemma_drop_shift_range(0, u, v);
        lemma_drop_shift_range(u + 1, n, v);
    }
    assert(r =~= complete_lists(n - 1));
}

/// The lists once the edge `{a, b}` is added where it is missing, as `add_edge` adds it.
pub open spec fn add_pair_lists(ls: Seq<Seq<usize>>, a: usize, b: usize) -> Seq<Seq<usize>> {
    if ls[a as int].contains(b) {
        ls
    } else {
        ls.update(a as int, ls[a as int].push(b)).update(b as int, ls[b as int].push(a))
    }
}

/// The lists once `nb[i]` is joined to `nb[i + 1], ..., nb[j - 1]`, in that order.
pub open spec fn clique_row(ls: Seq<Seq<usize>>, nb: Seq<usize>, i: int, j: int) -> Seq<Seq<usize>>
    decreases j - i,
{
    if j <= i + 1 {
        ls
    } else {
        add_pair_lists(clique_row(ls, nb, i, j - 1), nb[i], nb[j - 1])
    }
}

/// The lists once each of `nb[0], ..., nb[i - 1]` in turn is joined to every later entry of
/// `nb`.
pub open spec fn clique_lists(ls: Seq<Seq<usize>>, nb: Seq<usize>, i: int) -> Seq<Seq<usize>>
    decreases i,
{
    if i <= 0 {
        ls
    } else {
        clique_row(clique_lists(ls, nb, i - 1), nb, i - 1, nb.len() as int)
    }
}

/// The lists once vertex `v` is eliminated: removed, then its former neighbours (renumbered)
/// made pairwise adjacent in the order of its list.
pub open spec fn elim_lists(ls: Seq<Seq<usize>>, v: usize) -> Seq<Seq<usize>> {
    let nb = drop_shift(ls[v as int], v);
    clique_lists(remove_lists(ls, v), nb, nb.len() as int)
}

/// The adjacency lists once vertex `v` is removed.
pub open spec fn remove_lists(lists: Seq<Seq<usize>>, v: usize) -> Seq<Seq<usize>> {
    Seq::new((lists.len() - 1) as nat, |i: int| drop_shift(lists[unshift(i, v as int)], v))
}

pub proof fn lemma_drop_shift(s: Seq<usize>, v: usize)
    ensures
        forall|y: usize| #[trigger] drop_shift(s, v).contains(y) <==> exists|k: int|
            0 <= k < s.len() && s[k] != v && shift(s[k] as int, v as int) == y,
        s.no_duplicates() ==> drop_shift(s, v).no_duplicates(),
        drop_shift(s, v).len() <= s.len(),
    decreases s.len(),
{
    broadcast use vstd::seq_lib::group_seq_properties;

    if s.len() > 0 {
        let t = s.drop_last();
        lemma_drop_shift(t, v);
        let rest = drop_shift(t, v);
        let x = s.last();
        assert forall|y: usize| #[trigger] drop_shift(s, v).contains(y) <==> exists|k: int|
            0 <= k < s.len() && s[k] != v && shift(s[k] as int, v as int) == y by {
            if drop_shift(s, v).contains(y) {
                if rest.contains(y) {
                    let k = choose|k: int| 0 <= k < t.len() && t[k] != v && shift(t[k] as int, v as int) == y;
                    assert(s[k] == t[k]);
                } else {
                    assert(s[s.len() - 1] == x);
                }
            }
            if exists|k: int| 0 <= k < s.len() && s[k] != v && shift(s[k] as int, v as int) == y {
                let k = choose|k: int| 0 <= k < s.len() && s[k] != v && shift(s[k] as int, v as int) == y;
                if k < s.len() - 1 {
                    assert(t[k] == s[k]);
                    assert(rest.contains(y));
                } else {
                    let r2 = drop_shift(s, v);
                    assert(r2[r2.len() - 1] == y);
                }
            }
        }
        if s.no_duplicates() {
            assert(t.no_duplicates());
            if x != v {
                let nx = if x > v {
                    (x - 1) as usize
                } else {
                    x
                };
                assert(!rest.contains(nx)) by {
                    if rest.contains(nx) {
                        let k = choose|k: int| 0 <= k < t.len() && t[k] != v && shift(t[k] as int, v as int) == nx;
                        assert(s[k] == t[k]);
                        assert(s[s.len() - 1] == x);
                    }
                }
                assert forall|a: int, b: int| 0 <= a < b < rest.push(nx).len() implies rest.push(nx)[a]
                    != rest.push(nx)[b] by {
                    if b == rest.len() {
                        assert(rest.contains(rest.push(nx)[a]));
                    }
                }
            }
        }
    }
}

impl Graph {
    /// Removes vertex `v`, moving the vertices above it down by one; returns the former
    /// neighbour list of `v`, renumbered likewise.
    fn drop_vertex(&mut self, v: usize) -> (r: Vec<usize>)
        requires
            old(self).wf(),
            v < old(self)@.len(),
        ensures
            final(self).wf(),
            final(self)@ == remove_vertex_view(old(self)@, v as int),
            final(self).lists() == remove_lists(old(self).lists(), v),
            r@ == drop_shift(old(self).lists()[v as int], v),
            num_edges(final(self)@) + degree(old(self)@, v as int) == num_edges(old(self)@),
    {
        let ghost g = self@;
        let ghost ls = self.lists();
        proof {
            self.lemma_wf();
            self.lemma_list_set(v as int);
            lemma_remove_vertex_graph(g, v as int);
            lemma_remove_vertex_count(g, v as int);
            lemma_edge_pairs_finite(remove_vertex_view(g, v as int));
        }
        let n = self.n;
        let mut new_adj: Vec<Vec<usize>> = Vec::new();
        let mut mine: Vec<usize> = Vec::new();
        let mut i: usize = 0;
        while i < n
            invariant
                n == ls.len(),
                v < n,
                i <= n,
                self.lists() == ls,
                self.adjency@.len() == n,
                new_adj@.len() == if i <= v {
                    i as int
                } else {
                    i - 1
                },
                forall|k: int| 0 <= k < new_adj@.len() ==> (#[trigger] new_adj@[k])@ == drop_shift(
                    ls[unshift(k, v as int)],
                    v,
                ),
                v < i ==> mine@ == drop_shift(ls[v as int], v),
            decreases n - i,
        {
            let src = &self.adjency[i];
            let mut l: Vec<usize> = Vec::new();
            let mut k: usize = 0;
            proof {
                assert(src@ == ls[i as int]);
                assert(src@.take(0) =~= Seq::<usize>::empty());
            }
            while k < src.len()
                invariant
                    k <= src.len(),
                    l@ == drop_shift(src@.take(k as int), v),
                decreases src.len() - k,
            {
                proof {
                    assert(src@.take(k + 1).drop_last() =~= src@.take(k as int));
                }
                let x = src[k];
                if x != v {
                    if x > v {
                        l.push(x - 1);
                    } else {
                        l.push(x);
                    }
                }
                k = k + 1;
            }
            proof {
                assert(src@.take(src.len() as int) =~= src@);
            }
            if i == v {
                mine = l;
            } else {
                new_adj.push(l);
            }
            i = i + 1;
        }
        proof {
            assert((n - 1) * (n - 1) <= n * n) by (nonlinear_arith)
                requires
                    n >= 1,
            ;
        }
        let new_m = self.m - self.adjency[v].len();
        self.adjency = new_adj;
        self.n = n - 1;
        self.m = new_m;
        proof {
            let nl = remove_lists(ls, v);
            assert(self.lists() =~= nl);
            assert forall|k: int| 0 <= k < nl.len() implies (#[trigger] nl[k]).no_duplicates()
                && forall|c: int| 0 <= c < nl[k].len() ==> nl[k][c] < nl.len() by {
                let src = ls[unshift(k, v as int)];
                assert(src.no_duplicates());
                lemma_drop_shift(src, v);
                assert forall|c: int| 0 <= c < nl[k].len() implies nl[k][c] < nl.len() by {
                    assert(nl[k].contains(nl[k][c]));
                    let d = choose|d: int| 0 <= d < src.len() && src[d] != v && shift(src[d] as int, v as int) == nl[k][c];
                    assert(src[d] < ls.len());
                }
            }
            assert(self@ =~= remove_vertex_view(g, v as int)) by {
                assert forall|k: int| 0 <= k < nl.len() implies #[trigger] self@[k]
                    =~= remove_vertex_view(g, v as int)[k] by {
                    let src = ls[unshift(k, v as int)];
                    lemma_drop_shift(src, v);
                    assert forall|x: int| #[trigger] self@[k].contains(x) == remove_vertex_view(
                        g,
                        v as int,
                    )[k].contains(x) by {
                        if self@[k].contains(x) {
                            assert(nl[k].contains(x as usize));
                            let d = choose|d: int| 0 <= d < src.len() && src[d] != v && shift(src[d] as int, v as int) == x as usize;
                            assert(src.contains(src[d]));
                            assert(unshift(x, v as int) == src[d]);
                        }
                        if remove_vertex_view(g, v as int)[k].contains(x) {
                            let ux = unshift(x, v as int);
                            assert(g[unshift(k, v as int)].contains(ux));
                            assert(src.contains(ux as usize));
                            let d = choose|d: int| 0 <= d < src.len() && src[d] == ux as usize;
                            assert(src[d] != v);
                            assert(nl[k].contains(x as usize));
                        }
                    }
                }
            }
        }
        mine
    }
}

/// Whether positions `p < q` come before position pair `(lim_p, lim_q)` in the order in which
/// a double loop visits them.
pub open spec fn pair_before(p: int, q: int, lim_p: int, lim_q: int) -> bool {
    p < lim_p || (p == lim_p && q < lim_q)
}

/// Whether `{x, y}` is the pair of entries at two positions `p < q` of `nb` visited before
/// `(lim_p, lim_q)`.
pub open spec fn pair_seen(nb: Seq<usize>, lim_p: int, lim_q: int, x: int, y: int) -> bool {
    exists|p: int, q: int|
        #![trigger nb[p], nb[q]]
        0 <= p < q < nb.len() && pair_before(p, q, lim_p, lim_q) && ((nb[p] == x && nb[q] == y) || (
        nb[p] == y && nb[q] == x))
}

/// The entries of a list as a set of integers.
pub open spec fn entries(nb: Seq<usize>) -> Set<int> {
    Set::new(|x: int| exists|k: int| 0 <= k < nb.len() && nb[k] == x)
}

/// After a double loop over all pairs of a list without repeated entries, every two distinct
/// entries have been seen.
pub proof fn lemma_all_pairs_seen(nb: Seq<usize>, x: int, y: int)
    requires
        nb.no_duplicates(),
        nb.len() >= 1,
    ensures
        pair_seen(nb, nb.len() - 1, 0, x, y) == (entries(nb).contains(x) && entries(
            nb,
        ).contains(y) && x != y),
{
    if entries(nb).contains(x) && entries(nb).contains(y) && x != y {
        let a = choose|a: int| 0 <= a < nb.len() && nb[a] == x;
        let b = choose|b: int| 0 <= b < nb.len() && nb[b] == y;
        if a < b {
            assert(nb[a] == x && nb[b] == y);
        } else {
            assert(nb[b] == y && nb[a] == x);
        }
    }
    if pair_seen(nb, nb.len() - 1, 0, x, y) {
        let (p, q) = choose|p: int, q: int|
            #![trigger nb[p], nb[q]]
            0 <= p < q < nb.len() && pair_before(p, q, nb.len() - 1, 0) && ((nb[p]
                == x && nb[q] == y) || (nb[p] == y && nb[q] == x));
        assert(nb[p] != nb[q]);
    }
}

impl Graph {
    /// Makes every two distinct entries of `nb` adjacent.
    fn add_clique(&mut self, nb: &Vec<usize>)
        requires
            old(self).wf(),
            nb@.no_duplicates(),
            forall|k: int| 0 <= k < nb@.len() ==> nb@[k] < old(self)@.len(),
        ensures
            final(self).wf(),
            final(self)@ == clique_view(old(self)@, entries(nb@)),
            final(self).lists() == clique_lists(old(self).lists(), nb@, nb@.len() as int),
    {
        let ghost g = self@;
        let ghost l0 = self.lists();
        let num = nb.len();
        if num == 0 {
            assert forall|k: int| 0 <= k < g.len() implies #[trigger] self@[k] =~= clique_view(
                g,
                entries(nb@),
            )[k] by {}
            assert(self@ =~= clique_view(g, entries(nb@)));
            assert(clique_lists(l0, nb@, 0) == l0);
            return ;
        }
        let mut i: usize = 0;
        while i < num - 1
            invariant
                num == nb@.len() >= 1,
                i <= num - 1,
                nb@.no_duplicates(),
                forall|k: int| 0 <= k < nb@.len() ==> nb@[k] < g.len(),
                self.wf(),
                self@.len() == g.len(),
                forall|a: int, b: int|
                    0 <= a < g.len() ==> (#[trigger] self@[a].contains(b) == (g[a].contains(b)
                        || pair_seen(nb@, i as int, 0, a, b))),
                l0 == old(self).lists(),
                self.lists() == clique_lists(l0, nb@, i as int),
            decreases num - 1 - i,
        {
            let vertex_i = nb[i];
            let mut j: usize = i + 1;
            proof {
                assert(clique_row(clique_lists(l0, nb@, i as int), nb@, i as int, j as int) == clique_lists(
                    l0,
                    nb@,
                    i as int,
                ));
            }
            while j < num
                invariant
                    num == nb@.len() >= 1,
                    i < num - 1,
                    i < j <= num,
                    vertex_i == nb@[i as int],
                    nb@.no_duplicates(),
                    forall|k: int| 0 <= k < nb@.len() ==> nb@[k] < g.len(),
                    self.wf(),
                    self@.len() == g.len(),
                    forall|a: int, b: int|
                        0 <= a < g.len() ==> (#[trigger] self@[a].contains(b) == (g[a].contains(b)
                            || pair_seen(nb@, i as int, j as int, a, b))),
                    l0 == old(self).lists(),
                    self.lists() == clique_row(clique_lists(l0, nb@, i as int), nb@, i as int, j as int),
                decreases num - j,
            {
                let ghost before = self@;
                let ghost lb = self.lists();
                let vertex_j = nb[j];
                proof {
                    self.lemma_wf();
                }
                self.add_edge(vertex_i, vertex_j);
                proof {
                    assert(lb[vertex_i as int].contains(vertex_j) == before[vertex_i as int].contains(vertex_j as int));
                    assert(self.lists() == add_pair_lists(lb, vertex_i, vertex_j));
                    assert forall|a: int, b: int| 0 <= a < g.len() implies (#[trigger] self@[a].contains(
                        b,
                    ) == (g[a].contains(b) || pair_seen(nb@, i as int, j + 1, a, b))) by {
                        let is_new = (a == vertex_i && b == vertex_j) || (a == vertex_j && b
                            == vertex_i);
                        assert(pair_seen(nb@, i as int, j + 1, a, b) == (pair_seen(
                            nb@,
                            i as int,
                            j as int,
                            a,
                            b,
                        ) || is_new)) by {
                            if pair_seen(nb@, i as int, j + 1, a, b) && !is_new {
                                let (p, q) = choose|p: int, q: int|
                                    #![trigger nb@[p], nb@[q]]
                                    0 <= p < q < nb@.len() && pair_before(p, q, i as int, j + 1)
                                        && ((nb@[p] == a && nb@[q] == b) || (nb@[p] == b && nb@[q]
                                        == a));
                                assert(pair_before(p, q, i as int, j as int));
                            }
                            if is_new {
                                assert(nb@[i as int] == vertex_i && nb@[j as int] == vertex_j);
                            }
                        }
                        if before[vertex_i as int].contains(vertex_j as int) {
                            assert(before[vertex_j as int].contains(vertex_i as int));
                        }
                    }
                }
                j = j + 1;
            }
            proof {
                assert(self.lists() == clique_lists(l0, nb@, i + 1));
                assert forall|a: int, b: int| 0 <= a < g.len() implies (#[trigger] self@[a].contains(b)
                    == (g[a].contains(b) || pair_seen(nb@, i + 1, 0, a, b))) by {
                    if pair_seen(nb@, i as int, num as int, a, b) {
                        let (p, q) = choose|p: int, q: int|
                            #![trigger nb@[p], nb@[q]]
                            0 <= p < q < nb@.len() && pair_before(p, q, i as int, num as int) && ((
                            nb@[p] == a && nb@[q] == b) || (nb@[p] == b && nb@[q] == a));
                        assert(pair_before(p, q, i + 1, 0));
                    }
                    if pair_seen(nb@, i + 1, 0, a, b) {
                        let (p, q) = choose|p: int, q: int|
                            #![trigger nb@[p], nb@[q]]
                            0 <= p < q < nb@.len() && pair_before(p, q, i + 1, 0) && ((nb@[p] == a
                                && nb@[q] == b) || (nb@[p] == b && nb@[q] == a));
                        assert(pair_before(p, q, i as int, num as int));
                    }
                }
            }
            i = i + 1;
        }
        proof {
            assert forall|k: int| 0 <= k < g.len() implies #[trigger] self@[k] =~= clique_view(
                g,
                entries(nb@),
            )[k] by {
                assert forall|b: int| #[trigger] self@[k].contains(b) == clique_view(
                    g,
                    entries(nb@),
                )[k].contains(b) by {
                    lemma_all_pairs_seen(nb@, k, b);
                }
            }
            assert(self@ =~= clique_view(g, entries(nb@)));
            assert(clique_lists(l0, nb@, num as int) == clique_lists(l0, nb@, num - 1));
        }
    }
}

impl Graph {
    /// The renumbered neighbour list of `v` lists the neighbours of `v` in the smaller graph.
    proof fn lemma_shifted_entries(&self, v: int)
        requires
            self.wf(),
            0 <= v < self@.len(),
        ensures
            entries(drop_shift(self.lists()[v], v as usize)) == shifted_nbrs(self@, v),
            drop_shift(self.lists()[v], v as usize).no_duplicates(),
            forall|k: int|
                0 <= k < drop_shift(self.lists()[v], v as usize).len() ==> #[trigger] drop_shift(
                    self.lists()[v],
                    v as usize,
                )[k] < self@.len() - 1,
    {
        let l = self.lists()[v];
        let d = drop_shift(l, v as usize);
        self.lemma_wf();
        lemma_drop_shift(l, v as usize);
        lemma_shifted_nbrs(self@, v);
        assert forall|j: int| #[trigger] entries(d).contains(j) == shifted_nbrs(self@, v).contains(j) by {
            if entries(d).contains(j) {
                let k = choose|k: int| 0 <= k < d.len() && d[k] == j;
                assert(d.contains(d[k]));
                let a = choose|a: int| 0 <= a < l.len() && l[a] != v && shift(l[a] as int, v) == d[k];
                assert(l.contains(l[a]));
                assert(unshift(j, v) == l[a]);
            }
            if shifted_nbrs(self@, v).contains(j) {
                let x = unshift(j, v);
                assert(l.contains(x as usize));
                let a = choose|a: int| 0 <= a < l.len() && l[a] == x as usize;
                assert(l[a] != v);
                assert(d.contains(j as usize));
                let k = choose|k: int| 0 <= k < d.len() && d[k] == j as usize;
            }
        }
        assert(entries(d) =~= shifted_nbrs(self@, v));
        assert forall|k: int| 0 <= k < d.len() implies #[trigger] d[k] < self@.len() - 1 by {
            assert(entries(d).contains(d[k] as int));
        }
    }

    /// Removes vertex `v`, moving the vertices above it down by one; returns `false` (and
    /// changes nothing) when `v` is not a vertex.
    pub fn remove_vertex(&mut self, v: usize) -> (r: bool)
        requires
            old(self).wf(),
        ensures
            final(self).wf(),
            r == (v < old(self)@.len()),
            r ==> final(self)@ == remove_vertex_view(old(self)@, v as int),
            r ==> final(self).lists() == remove_lists(old(self).lists(), v),
            !r ==> *final(self) == *old(self),
    {
        if v >= self.n {
            return false;
        }
        self.drop_vertex(v);
        true
    }

    /// Removes vertex `v` as `remove_vertex` does and returns its former neighbours, renumbered;
    /// `None` when `v` is not a vertex.
    pub fn remove_vertex_neighbors(&mut self, v: usize) -> (r: Option<Vec<usize>>)
        requires
            old(self).wf(),
        ensures
            final(self).wf(),
            v >= old(self)@.len() ==> (r is None && *final(self) == *old(self)),
            v < old(self)@.len() ==> (r matches Some(nb) && nb@ == drop_shift(
                old(self).lists()[v as int],
                v,
            ) && entries(nb@) == shifted_nbrs(old(self)@, v as int)),
            v < old(self)@.len() ==> final(self)@ == remove_vertex_view(old(self)@, v as int),
            v < old(self)@.len() ==> final(self).lists() == remove_lists(old(self).lists(), v),
    {
        if v >= self.n {
            return None;
        }
        proof {
            self.lemma_shifted_entries(v as int);
        }
        Some(self.drop_vertex(v))
    }

    /// Eliminates vertex `v`: removes it and makes its neighbours pairwise adjacent.
    pub fn elim_vertex(&mut self, v: usize)
        requires
            old(self).wf(),
            v < old(self)@.len(),
        ensures
            final(self).wf(),
            final(self)@ == elim_view(old(self)@, v as int),
            final(self).lists() == elim_lists(old(self).lists(), v),
    {
        proof {
            self.lemma_shifted_entries(v as int);
        }
        let nb = self.drop_vertex(v);
        self.add_clique(&nb);
    }

    /// Contracts the edge `{u, v}` into `u`: removes `v` and joins its other neighbours to `u`.
    pub fn contract_edge(&mut self, u: usize, v: usize)
        requires
            old(self).wf(),
            u < old(self)@.len(),
            v < old(self)@.len(),
            u != v,
        ensures
            final(self).wf(),
            final(self)@ == contract_view(old(self)@, u as int, v as int),
    {
        let ghost g = self@;
        proof {
            self.lemma_shifted_entries(v as int);
        }
        let nb = self.drop_vertex(v);
        let ghost r = self@;
        let w = if u > v {
            u - 1
        } else {
            u
        };
        let mut k: usize = 0;
        while k < nb.len()
            invariant
                k <= nb.len(),
                w == shift(u as int, v as int),
                w < r.len(),
                entries(nb@) == shifted_nbrs(g, v as int),
                forall|c: int| 0 <= c < nb@.len() ==> nb@[c] < r.len(),
                self.wf(),
                self@.len() == r.len(),
                forall|a: int, b: int|
                    0 <= a < r.len() ==> (#[trigger] self@[a].contains(b) == (r[a].contains(b) || (a
                        == w && entries(nb@.take(k as int)).contains(b) && b != w) || (b == w
                        && entries(nb@.take(k as int)).contains(a) && a != w))),
            decreases nb.len() - k,
        {
            let neighbor = nb[k];
            let ghost before = self@;
            if neighbor != w {
                self.add_edge(w, neighbor);
            }
            proof {
                lemma_entries_take(nb@, k as int);
                if neighbor != w && before[w as int].contains(neighbor as int) {
                    assert(before[neighbor as int].contains(w as int));
                }
            }
            k = k + 1;
        }
        proof {
            assert(nb@.take(nb.len() as int) =~= nb@);
            lemma_contract_graph(g, u as int, v as int);
            assert forall|a: int| 0 <= a < r.len() implies #[trigger] self@[a] =~= contract_view(
                g,
                u as int,
                v as int,
            )[a] by {}
            assert(self@ =~= contract_view(g, u as int, v as int));
        }
    }
}

/// The entries of a prefix grow by one entry at a time.
pub proof fn lemma_entries_take(s: Seq<usize>, k: int)
    requires
        0 <= k < s.len(),
    ensures
        forall|c: int| #[trigger] entries(s.take(k + 1)).contains(c) == (entries(s.take(k)).contains(c) || c == s[k]),
        entries(s.take(0)) == Set::<int>::empty(),
{
    let t1 = s.take(k + 1);
    let t0 = s.take(k);
    assert forall|c: int| #[trigger] entries(t1).contains(c) == (entries(t0).contains(c) || c == s[k]) by {
        if entries(t1).contains(c) && c != s[k] {
            let e = choose|e: int| 0 <= e < t1.len() && t1[e] == c;
            assert(t0[e] == c);
        }
        if entries(t0).contains(c) {
            let e = choose|e: int| 0 <= e < t0.len() && t0[e] == c;
            assert(t1[e] == c);
        }
        if c == s[k] {
            assert(t1[k] == c);
        }
    }
    assert(entries(s.take(0)) =~= Set::<int>::empty());
}

/// One more step of a double loop over position pairs.
pub proof fn lemma_pair_seen_step(nb: Seq<usize>, i: int, j: int, x: int, y: int)
    requires
        0 <= i < j < nb.len(),
        nb.no_duplicates(),
    ensures
        pair_seen(nb, i, j + 1, x, y) == (pair_seen(nb, i, j, x, y) || (x == nb[i] && y == nb[j])
            || (x == nb[j] && y == nb[i])),
        !pair_seen(nb, i, j, nb[i] as int, nb[j] as int),
{
    if pair_seen(nb, i, j + 1, x, y) && !((x == nb[i] && y == nb[j]) || (x == nb[j] && y == nb[i])) {
        let (p, q) = choose|p: int, q: int|
            #![trigger nb[p], nb[q]]
            0 <= p < q < nb.len() && pair_before(p, q, i, j + 1) && ((nb[p] == x && nb[q] == y) || (
            nb[p] == y && nb[q] == x));
        assert(pair_before(p, q, i, j));
    }
    if pair_seen(nb, i, j, x, y) {
        let (p, q) = choose|p: int, q: int|
            #![trigger nb[p], nb[q]]
            0 <= p < q < nb.len() && pair_before(p, q, i, j) && ((nb[p] == x && nb[q] == y) || (nb[p]
                == y && nb[q] == x));
        assert(pair_before(p, q, i, j + 1));
    }
    if (x == nb[i] && y == nb[j]) || (x == nb[j] && y == nb[i]) {
        assert(nb[i] == x && nb[j] == y || nb[i] == y && nb[j] == x);
        assert(pair_before(i, j, i, j + 1));
    }
    if pair_seen(nb, i, j, nb[i] as int, nb[j] as int) {
        let (p, q) = choose|p: int, q: int|
            #![trigger nb[p], nb[q]]
            0 <= p < q < nb.len() && pair_before(p, q, i, j) && ((nb[p] == nb[i] && nb[q] == nb[j])
                || (nb[p] == nb[j] && nb[q] == nb[i]));
        if nb[p] == nb[i] {
            assert(p == i);
            assert(q == j);
        } else {
            assert(p == j);
        }
    }
}

/// Moving from the end of one row of a double loop to the start of the next.
pub proof fn lemma_pair_seen_row(nb: Seq<usize>, i: int, x: int, y: int)
    requires
        0 <= i < nb.len(),
    ensures
        pair_seen(nb, i, nb.len() as int, x, y) == pair_seen(nb, i + 1, 0, x, y),
        pair_seen(nb, i, i + 1, x, y) == pair_seen(nb, i, 0, x, y),
{
    if pair_seen(nb, i, nb.len() as int, x, y) {
        let (p, q) = choose|p: int, q: int|
            #![trigger nb[p], nb[q]]
            0 <= p < q < nb.len() && pair_before(p, q, i, nb.len() as int) && ((nb[p] == x && nb[q]
                == y) || (nb[p] == y && nb[q] == x));
        assert(pair_before(p, q, i + 1, 0));
    }
    if pair_seen(nb, i + 1, 0, x, y) {
        let (p, q) = choose|p: int, q: int|
            #![trigger nb[p], nb[q]]
            0 <= p < q < nb.len() && pair_before(p, q, i + 1, 0) && ((nb[p] == x && nb[q] == y) || (
            nb[p] == y && nb[q] == x));
        assert(pair_before(p, q, i, nb.len() as int));
    }
    if pair_seen(nb, i, i + 1, x, y) {
        let (p, q) = choose|p: int, q: int|
            #![trigger nb[p], nb[q]]
            0 <= p < q < nb.len() && pair_before(p, q, i, i + 1) && ((nb[p] == x && nb[q] == y) || (
            nb[p] == y && nb[q] == x));
        assert(pair_before(p, q, i, 0));
    }
    if pair_seen(nb, i, 0, x, y) {
        let (p, q) = choose|p: int, q: int|
            #![trigger nb[p], nb[q]]
            0 <= p < q < nb.len() && pair_before(p, q, i, 0) && ((nb[p] == x && nb[q] == y) || (nb[p]
                == y && nb[q] == x));
        assert(pair_before(p, q, i, i + 1));
    }
}

/// The non-adjacent neighbour pairs of `v` met so far by a double loop over its list.
pub open spec fn fill_seen(g: Nbrs, v: int, nb: Seq<usize>, lim_p: int, lim_q: int) -> Set<(int, int)> {
    Set::new(|pr: (int, int)| fill_pairs(g, v).contains(pr) && pair_seen(nb, lim_p, lim_q, pr.0, pr.1))
}

pub proof fn lemma_fill_pairs_finite(g: Nbrs, v: int)
    requires
        is_graph(g),
        0 <= v < g.len(),
    ensures
        fill_pairs(g, v).finite(),
        fill_in(g, v) <= g.len() * g.len(),
{
    lemma_pair_grid_finite(g.len() as int);
    assert(fill_pairs(g, v).subset_of(pair_grid(g.len() as int)));
    vstd::set_lib::lemma_set_subset_finite(pair_grid(g.len() as int), fill_pairs(g, v));
    vstd::set_lib::lemma_len_subset(fill_pairs(g, v), pair_grid(g.len() as int));
}

impl Graph {
    /// The number of edges eliminating `v` would add: pairs of neighbours of `v` that are not
    /// adjacent.
    pub fn fill_in_count_vertex(&self, v: usize) -> (r: usize)
        requires
            self.wf(),
            v < self@.len(),
        ensures
            r == fill_in(self@, v as int),
    {
        let ghost g = self@;
        let neighbors = &self.adjency[v];
        let ghost nb = neighbors@;
        let num_neighbors = neighbors.len();
        proof {
            self.lemma_wf();
            self.lemma_list_set(v as int);
            lemma_fill_pairs_finite(g, v as int);
            assert(nb == self.lists()[v as int]);
        }
        if num_neighbors == 0 {
            proof {
                assert(fill_pairs(g, v as int) =~= Set::empty()) by {
                    assert forall|pr: (int, int)| !fill_pairs(g, v as int).contains(pr) by {
                        if fill_pairs(g, v as int).contains(pr) {
                            assert(g[v as int].contains(pr.0));
                        }
                    }
                }
            }
            return 0;
        }
        let mut edges_missing: usize = 0;
        let mut i: usize = 0;
        proof {
            assert(fill_seen(g, v as int, nb, 0, 0) =~= Set::empty()) by {
                assert forall|pr: (int, int)| !#[trigger] fill_seen(g, v as int, nb, 0, 0).contains(pr) by {
                    if pair_seen(nb, 0, 0, pr.0, pr.1) {
                        let (p, q) = choose|p: int, q: int|
                            #![trigger nb[p], nb[q]]
                            0 <= p < q < nb.len() && pair_before(p, q, 0, 0) && ((nb[p] == pr.0 && nb[q] == pr.1) || (nb[p] == pr.1 && nb[q] == pr.0));
                    }
                }
            }
        }
        while i < num_neighbors - 1
            invariant
                self.wf(),
                g == self@,
                nb == neighbors@,
                nb == self.lists()[v as int],
                nb.no_duplicates(),
                v < g.len(),
                num_neighbors == nb.len() >= 1,
                i <= num_neighbors - 1,
                fill_pairs(g, v as int).finite(),
                fill_in(g, v as int) <= g.len() * g.len(),
                g.len() * g.len() <= usize::MAX,
                forall|c: int| #[trigger] g[v as int].contains(c) <==> exists|k: int|
                    0 <= k < nb.len() && nb[k] == c,
                edges_missing == fill_seen(g, v as int, nb, i as int, 0).len(),
            decreases num_neighbors - 1 - i,
        {
            let vertex_i = neighbors[i];
            let mut j = i + 1;
            proof {
                assert(fill_seen(g, v as int, nb, i as int, j as int) =~= fill_seen(g, v as int, nb, i as int, 0)) by {
                    assert forall|pr: (int, int)| #[trigger] fill_seen(g, v as int, nb, i as int, j as int).contains(pr) == fill_seen(g, v as int, nb, i as int, 0).contains(pr) by {
                        lemma_pair_seen_row(nb, i as int, pr.0, pr.1);
                    }
                }
            }
            while j < num_neighbors
                invariant
                    self.wf(),
                    g == self@,
                    nb == neighbors@,
                    nb.no_duplicates(),
                    v < g.len(),
                    num_neighbors == nb.len() >= 1,
                    i < num_neighbors - 1,
                    i < j <= num_neighbors,
                    vertex_i == nb[i as int],
                    fill_pairs(g, v as int).finite(),
                    fill_in(g, v as int) <= g.len() * g.len(),
                    g.len() * g.len() <= usize::MAX,
                    forall|c: int| #[trigger] g[v as int].contains(c) <==> exists|k: int|
                        0 <= k < nb.len() && nb[k] == c,
                    edges_missing == fill_seen(g, v as int, nb, i as int, j as int).len(),
                decreases num_neighbors - j,
            {
                let vertex_j = neighbors[j];
                let missing = !self.has_edge(vertex_i, vertex_j);
                proof {
                    let old_seen = fill_seen(g, v as int, nb, i as int, j as int);
                    let new_seen = fill_seen(g, v as int, nb, i as int, j + 1);
                    let (a, b) = if vertex_i < vertex_j {
                        (vertex_i as int, vertex_j as int)
                    } else {
                        (vertex_j as int, vertex_i as int)
                    };
                    assert(g[v as int].contains(vertex_i as int)) by {
                        assert(nb[i as int] == vertex_i);
                    }
                    assert(g[v as int].contains(vertex_j as int)) by {
                        assert(nb[j as int] == vertex_j);
                    }
                    assert(vertex_i != vertex_j);
                    assert(g[vertex_i as int].contains(vertex_j as int) == g[vertex_j as int].contains(vertex_i as int));
                    lemma_pair_seen_step(nb, i as int, j as int, a, b);
                    assert forall|pr: (int, int)| #[trigger] new_seen.contains(pr) == (old_seen.contains(pr) || (missing && pr == (a, b))) by {
                        lemma_pair_seen_step(nb, i as int, j as int, pr.0, pr.1);
                    }
                    vstd::set_lib::lemma_set_subset_finite(fill_pairs(g, v as int), old_seen);
                    if missing {
                        assert(fill_pairs(g, v as int).contains((a, b)));
                        assert(!old_seen.contains((a, b)));
                        assert(new_seen =~= old_seen.insert((a, b)));
                        vstd::set_lib::lemma_len_subset(new_seen, fill_pairs(g, v as int));
                    } else {
                        assert(new_seen =~= old_seen);
                    }
                }
                if missing {
                    edges_missing = edges_missing + 1;
                }
                j = j + 1;
            }
            proof {
                assert(fill_seen(g, v as int, nb, i as int, num_neighbors as int) =~= fill_seen(g, v as int, nb, i + 1, 0)) by {
                    assert forall|pr: (int, int)| #[trigger] fill_seen(g, v as int, nb, i as int, num_neighbors as int).contains(pr) == fill_seen(g, v as int, nb, i + 1, 0).contains(pr) by {
                        lemma_pair_seen_row(nb, i as int, pr.0, pr.1);
                    }
                }
            }
            i = i + 1;
        }
        proof {
            assert(fill_seen(g, v as int, nb, (num_neighbors - 1) as int, 0) =~= fill_pairs(g, v as int)) by {
                assert forall|pr: (int, int)| #[trigger] fill_pairs(g, v as int).contains(pr) implies pair_seen(nb, nb.len() - 1, 0, pr.0, pr.1) by {
                    lemma_all_pairs_seen(nb, pr.0, pr.1);
                    assert(entries(nb).contains(pr.0));
                    assert(entries(nb).contains(pr.1));
                }
            }
        }
        edges_missing
    }
}

/// Orders the positions of a neighbour list by the degree of the neighbour there.
pub open spec fn nbr_degree_key(g: Nbrs, nb: Seq<usize>) -> spec_fn(int) -> int {
    |k: int| degree(g, nb[k] as int) as int
}

impl Graph {
    /// The first vertex with the smallest fill-in, ties broken by smaller degree.
    pub fn min_fill_in_count_vertex(&self) -> (r: usize)
        requires
            self.wf(),
            self@.len() >= 1,
        ensures
            r == min_fill_choice(self@),
    {
        let ghost g = self@;
        let ghost key = fill_degree_key(g);
        proof {
            self.lemma_wf();
            lemma_degree_bound(g, 0);
        }
        let mut min = self.fill_in_count_vertex(0);
        let mut vertex_min: usize = 0;
        let mut min_degree = self.degree(0);
        let mut v: usize = 1;
        while v < self.n
            invariant
                self.wf(),
                g == self@,
                key == fill_degree_key(g),
                1 <= v <= g.len(),
                vertex_min == first_argmin(v as int, key),
                vertex_min < g.len(),
                min == fill_in(g, vertex_min as int),
                min_degree == degree(g, vertex_min as int),
                min_degree < g.len(),
            decreases g.len() - v,
        {
            let fill = self.fill_in_count_vertex(v);
            let d = self.degree(v);
            proof {
                lemma_degree_bound(g, v as int);
                lemma_lex_key(fill as int, d as int, min as int, min_degree as int, g.len() as int);
            }
            if fill < min || (fill == min && d < min_degree) {
                min = fill;
                vertex_min = v;
                min_degree = d;
            }
            v = v + 1;
        }
        vertex_min
    }

    /// The first vertex of minimum degree.
    pub fn min_degree_vertex(&self) -> (r: usize)
        requires
            self.wf(),
            self@.len() >= 1,
        ensures
            r == min_degree_choice(self@),
    {
        let ghost g = self@;
        let ghost key = degree_key(g);
        let mut best: usize = 0;
        let mut best_degree = self.adjency[0].len();
        let mut v: usize = 1;
        proof {
            self.lemma_list_set(0);
        }
        while v < self.n
            invariant
                self.wf(),
                g == self@,
                key == degree_key(g),
                1 <= v <= g.len(),
                best == first_argmin(v as int, key),
                best < g.len(),
                best_degree == degree(g, best as int),
            decreases g.len() - v,
        {
            let d = self.degree(v);
            if d < best_degree {
                best = v;
                best_degree = d;
            }
            v = v + 1;
        }
        best
    }

    /// The first neighbour of `v`, in list order, of minimum degree.
    pub fn min_degree_neighbor(&self, v: usize) -> (r: usize)
        requires
            self.wf(),
            v < self@.len(),
            self.lists()[v as int].len() >= 1,
        ensures
            r == self.lists()[v as int][first_argmin(
                self.lists()[v as int].len() as int,
                nbr_degree_key(self@, self.lists()[v as int]),
            )],
            self@[v as int].contains(r as int),
    {
        let ghost g = self@;
        let neighbors = &self.adjency[v];
        let ghost nb = neighbors@;
        let ghost key = nbr_degree_key(g, nb);
        proof {
            self.lemma_wf();
            assert(nb == self.lists()[v as int]);
            assert(nb[0] < g.len());
        }
        let mut best: usize = 0;
        let mut best_degree = self.degree(neighbors[0]);
        let mut k: usize = 1;
        while k < neighbors.len()
            invariant
                self.wf(),
                g == self@,
                nb == neighbors@,
                lists_ok(self.lists()),
                nb == self.lists()[v as int],
                v < g.len(),
                key == nbr_degree_key(g, nb),
                1 <= k <= nb.len(),
                best == first_argmin(k as int, key),
                best < nb.len(),
                best_degree == degree(g, nb[best as int] as int),
            decreases nb.len() - k,
        {
            proof {
                assert(nb[k as int] < g.len());
            }
            let d = self.degree(neighbors[k]);
            if d < best_degree {
                best = k;
                best_degree = d;
            }
            k = k + 1;
        }
        proof {
            assert(nb[best as int] < g.len());
            assert(nb.contains(nb[best as int]));
        }
        neighbors[best]
    }
}

/// Whether the pair `{a, b}` occurs in `r`, in either orientation.
pub open spec fn listed(r: Seq<(usize, usize)>, a: usize, b: usize) -> bool {
    exists|k: int| 0 <= k < r.len() && (r[k] == (a, b) || r[k] == (b, a))
}

/// Whether no pair of `r` is another pair of `r` turned around (nor its own).
pub open spec fn one_orientation(r: Seq<(usize, usize)>) -> bool {
    forall|k1: int, k2: int|
        #![trigger r[k1], r[k2]]
        0 <= k1 < r.len() && 0 <= k2 < r.len() ==> r[k1].0 != r[k2].1 || r[k1].1 != r[k2].0
}

/// Whether eliminating `v` from `g` adds the edge `{a, b}` (numbered as after the removal).
pub open spec fn fill_pair(g: Nbrs, v: int, a: int, b: int) -> bool {
    &&& shifted_nbrs(g, v).contains(a)
    &&& shifted_nbrs(g, v).contains(b)
    &&& a != b
    &&& !remove_vertex_view(g, v)[a].contains(b)
}

/// Whether `r` lists, in one orientation or the other, exactly the edges that eliminating `v`
/// from `g` adds.
pub open spec fn lists_fill_edges(r: Seq<(usize, usize)>, g: Nbrs, v: int) -> bool {
    forall|a: usize, b: usize| #[trigger] listed(r, a, b) == fill_pair(g, v, a as int, b as int)
}

/// Once a double loop has met every pair, the recorded pairs are the edges elimination adds.
pub proof fn lemma_fill_edges_listed(added: Seq<(usize, usize)>, nb: Seq<usize>, g0: Nbrs, v: int)
    requires
        nb.len() >= 1,
        nb.no_duplicates(),
        entries(nb) == shifted_nbrs(g0, v),
        records_fill(added, remove_vertex_view(g0, v), nb, nb.len() - 1, 0),
    ensures
        lists_fill_edges(added, g0, v),
{
    assert forall|a: usize, b: usize| #[trigger] listed(added, a, b) == fill_pair(g0, v, a as int, b as int) by {
        lemma_all_pairs_seen(nb, a as int, b as int);
        assert(pair_seen(nb, nb.len() - 1, 0, a as int, b as int) == (entries(nb).contains(a as int)
            && entries(nb).contains(b as int) && a != b));
        assert(listed(added, a, b) == (pair_seen(nb, nb.len() - 1, 0, a as int, b as int)
            && !remove_vertex_view(g0, v)[a as int].contains(b as int)));
    }
}

/// A pair of vertex numbers from after the elimination of `v`, read back as the pair of old
/// numbers, smaller first.
pub open spec fn old_pair(v: int) -> spec_fn((usize, usize)) -> (int, int) {
    |pr: (usize, usize)|
        {
            let x = unshift(pr.0 as int, v);
            let y = unshift(pr.1 as int, v);
            if x < y {
                (x, y)
            } else {
                (y, x)
            }
        }
}

/// Listing each edge that eliminating `v` adds once, in one orientation, lists as many pairs as
/// the fill-in of `v` counts.
pub proof fn lemma_fill_edges_count(r: Seq<(usize, usize)>, g: Nbrs, v: int)
    requires
        is_graph(g),
        0 <= v < g.len(),
        g.len() <= usize::MAX,
        r.no_duplicates(),
        one_orientation(r),
        lists_fill_edges(r, g, v),
    ensures
        r.len() == fill_in(g, v),
{
    let f = old_pair(v);
    let x = r.to_set();
    r.unique_seq_to_set();
    assert forall|q: (int, int)| x.map(f).contains(q) == fill_pairs(g, v).contains(q) by {
        if x.map(f).contains(q) {
            let pr = choose|pr: (usize, usize)| x.contains(pr) && f(pr) == q;
            let k = choose|k: int| 0 <= k < r.len() && r[k] == pr;
            assert(listed(r, pr.0, pr.1));
            assert(fill_pair(g, v, pr.0 as int, pr.1 as int));
            let a = unshift(pr.0 as int, v);
            let b = unshift(pr.1 as int, v);
            assert(g[v].contains(a) && g[v].contains(b));
            assert(0 <= a < g.len() && 0 <= b < g.len());
            assert(pr.0 < g.len() - 1);
            assert(!g[a].contains(b));
            assert(!g[b].contains(a));
        }
        if fill_pairs(g, v).contains(q) {
            let a = shift(q.0, v);
            let b = shift(q.1, v);
            assert(g[v].contains(q.0) && g[v].contains(q.1));
            assert(q.0 != v && q.1 != v);
            assert(unshift(a, v) == q.0 && unshift(b, v) == q.1);
            assert(0 <= a && 0 <= b);
            assert(q.0 < g.len() && q.1 < g.len());
            assert(shifted_nbrs(g, v).contains(a) && shifted_nbrs(g, v).contains(b));
            assert(a < g.len() - 1);
            assert(a as usize as int == a && b as usize as int == b);
            assert(!remove_vertex_view(g, v)[a].contains(b));
            assert(fill_pair(g, v, a as usize as int, b as usize as int));
            assert(listed(r, a as usize, b as usize));
            let k = choose|k: int| 0 <= k < r.len() && (r[k] == (a as usize, b as usize) || r[k] == (b as usize, a as usize));
            assert(x.contains(r[k]));
            assert(f(r[k]) == q);
        }
    }
    assert(x.map(f) =~= fill_pairs(g, v));
    assert forall|p1: (usize, usize), p2: (usize, usize)|
        x.contains(p1) && x.contains(p2) && #[trigger] f(p1) == #[trigger] f(p2) implies p1 == p2 by {
        let k1 = choose|k: int| 0 <= k < r.len() && r[k] == p1;
        let k2 = choose|k: int| 0 <= k < r.len() && r[k] == p2;
        assert(r[k1].0 != r[k2].1 || r[k1].1 != r[k2].0);
    }
    vstd::set_lib::lemma_map_size(x, fill_pairs(g, v), f);
}

/// Whether the pairs `r` record, in either orientation, exactly the pairs of distinct entries
/// of `nb` that are not adjacent in `g`.
pub open spec fn records_fill(r: Seq<(usize, usize)>, g: Nbrs, nb: Seq<usize>, lim_p: int, lim_q: int) -> bool {
    &&& r.no_duplicates()
    &&& forall|a: usize, b: usize|
        #![trigger pair_seen(nb, lim_p, lim_q, a as int, b as int)]
        (exists|k: int| 0 <= k < r.len() && (r[k] == (a, b) || r[k] == (b, a)))
            == (pair_seen(nb, lim_p, lim_q, a as int, b as int) && !g[a as int].contains(b as int))
}

/// Recording the pairs of a whole row is recording them up to the start of the next row.
proof fn lemma_records_next_row(r: Seq<(usize, usize)>, g: Nbrs, nb: Seq<usize>, i: int)
    requires
        0 <= i < nb.len(),
        records_fill(r, g, nb, i, nb.len() as int),
    ensures
        records_fill(r, g, nb, i + 1, 0),
{
    assert forall|a: usize, b: usize|
        (exists|k: int| 0 <= k < r.len() && (r[k] == (a, b) || r[k] == (b, a)))
            == (#[trigger] pair_seen(nb, i + 1, 0, a as int, b as int) && !g[a as int].contains(b as int)) by {
        lemma_pair_seen_row(nb, i, a as int, b as int);
        assert((exists|k: int| 0 <= k < r.len() && (r[k] == (a, b) || r[k] == (b, a)))
            == (pair_seen(nb, i, nb.len() as int, a as int, b as int) && !g[a as int].contains(b as int)));
    }
}

impl Graph {
    /// A copy of the graph.
    pub fn duplicate(&self) -> (r: Graph)
        requires
            self.wf(),
        ensures
            r.wf(),
            r@ == self@,
            r.lists() == self.lists(),
    {
        let mut adjency: Vec<Vec<usize>> = Vec::new();
        let mut i: usize = 0;
        while i < self.adjency.len()
            invariant
                i <= self.adjency@.len(),
                adjency@.len() == i,
                forall|k: int| 0 <= k < i ==> (#[trigger] adjency@[k])@ == self.adjency@[k]@,
            decreases self.adjency@.len() - i,
        {
            let l = self.adjency[i].clone();
            assert(l@ =~= self.adjency@[i as int]@);
            adjency.push(l);
            i = i + 1;
        }
        let r = Graph { n: self.n, m: self.m, adjency };
        assert(r.lists() =~= self.lists());
        r
    }

    /// Eliminates vertex `v` and returns the edges that were added, each once, as a pair of the
    /// new vertex numbers in one orientation.
    #[verifier::spinoff_prover]
    #[verifier::rlimit(40)]
    pub fn elim_vertex_edges(&mut self, v: usize) -> (r: Vec<(usize, usize)>)
        requires
            old(self).wf(),
            v < old(self)@.len(),
        ensures
            final(self).wf(),
            final(self)@ == elim_view(old(self)@, v as int),
            r@.no_duplicates(),
            one_orientation(r@),
            lists_fill_edges(r@, old(self)@, v as int),
            r@.len() == fill_in(old(self)@, v as int),
            final(self).lists() == elim_lists(old(self).lists(), v),
    {
        proof {
            self.lemma_shifted_entries(v as int);
        }
        let ghost g0 = self@;
        let nb = self.drop_vertex(v);
        let ghost g = self@;
        let ghost l0 = self.lists();
        let mut added: Vec<(usize, usize)> = Vec::new();
        let num = nb.len();
        if num == 0 {
            proof {
                assert forall|k: int| 0 <= k < g.len() implies #[trigger] self@[k] =~= clique_view(
                    g,
                    entries(nb@),
                )[k] by {}
                assert(self@ =~= clique_view(g, entries(nb@)));
                assert(entries(nb@) =~= Set::empty());
                assert(entries(nb@) == shifted_nbrs(g0, v as int));
                assert forall|a: usize, b: usize| #[trigger] listed(added@, a, b) == fill_pair(old(self)@, v as int, a as int, b as int) by {
                    assert(!shifted_nbrs(old(self)@, v as int).contains(a as int));
                }
                assert(lists_fill_edges(added@, old(self)@, v as int));
                lemma_fill_edges_count(added@, old(self)@, v as int);
                assert(clique_lists(l0, nb@, 0) == l0);
            }
            return added;
        }
        let mut i: usize = 0;
        proof {
            assert forall|a: usize, b: usize| !#[trigger] pair_seen(nb@, 0, 0, a as int, b as int) by {
                assert(!pair_seen(nb@, 0, 0, a as int, b as int)) by {
                    if pair_seen(nb@, 0, 0, a as int, b as int) {
                        let (p, q) = choose|p: int, q: int|
                            #![trigger nb@[p], nb@[q]]
                            0 <= p < q < nb@.len() && pair_before(p, q, 0, 0) && ((nb@[p] == a && nb@[q] == b) || (nb@[p] == b && nb@[q] == a));
                    }
                }
            }
            assert forall|a: int, b: int| !#[trigger] pair_seen(nb@, 0, 0, a, b) by {
                if pair_seen(nb@, 0, 0, a, b) {
                    let (p, q) = choose|p: int, q: int|
                        #![trigger nb@[p], nb@[q]]
                        0 <= p < q < nb@.len() && pair_before(p, q, 0, 0) && ((nb@[p] == a && nb@[q] == b) || (nb@[p] == b && nb@[q] == a));
                }
            }
        }
        while i < num - 1
            invariant
                num == nb@.len() >= 1,
                i <= num - 1,
                nb@.no_duplicates(),
                forall|k: int| 0 <= k < nb@.len() ==> nb@[k] < g.len(),
                self.wf(),
                self@.len() == g.len(),
                forall|a: int, b: int|
                    0 <= a < g.len() ==> (#[trigger] self@[a].contains(b) == (g[a].contains(b)
                        || pair_seen(nb@, i as int, 0, a, b))),
                records_fill(added@, g, nb@, i as int, 0),
                one_orientation(added@),
                is_graph(g),
                l0 == remove_lists(old(self).lists(), v),
                nb@ == drop_shift(old(self).lists()[v as int], v),
                self.lists() == clique_lists(l0, nb@, i as int),
            decreases num - 1 - i,
        {
            let vertex_i = nb[i];
            let mut j: usize = i + 1;
            proof {
                assert(clique_row(clique_lists(l0, nb@, i as int), nb@, i as int, j as int) == clique_lists(
                    l0,
                    nb@,
                    i as int,
                ));
                assert forall|a: int, b: int| #[trigger] pair_seen(nb@, i as int, j as int, a, b) == pair_seen(nb@, i as int, 0, a, b) by {
                    lemma_pair_seen_row(nb@, i as int, a, b);
                }
                assert forall|a: usize, b: usize| #[trigger] pair_seen(nb@, i as int, j as int, a as int, b as int) == pair_seen(nb@, i as int, 0, a as int, b as int) by {
                    lemma_pair_seen_row(nb@, i as int, a as int, b as int);
                }
            }
            while j < num
                invariant
                    num == nb@.len() >= 1,
                    i < num - 1,
                    i < j <= num,
                    vertex_i == nb@[i as int],
                    nb@.no_duplicates(),
                    forall|k: int| 0 <= k < nb@.len() ==> nb@[k] < g.len(),
                    self.wf(),
                    self@.len() == g.len(),
                    forall|a: int, b: int|
                        0 <= a < g.len() ==> (#[trigger] self@[a].contains(b) == (g[a].contains(b)
                            || pair_seen(nb@, i as int, j as int, a, b))),
                    records_fill(added@, g, nb@, i as int, j as int),
                    one_orientation(added@),
                    is_graph(g),
                    self.lists() == clique_row(clique_lists(l0, nb@, i as int), nb@, i as int, j as int),
                decreases num - j,
            {
                let ghost before = self@;
                let ghost before_added = added@;
                let ghost lb = self.lists();
                let vertex_j = nb[j];
                proof {
                    self.lemma_wf();
                }
                let was_added = self.add_edge(vertex_i, vertex_j);
                proof {
                    assert(lb[vertex_i as int].contains(vertex_j) == before[vertex_i as int].contains(vertex_j as int));
                    assert(self.lists() == add_pair_lists(lb, vertex_i, vertex_j));
                }
                if was_added {
                    added.push((vertex_i, vertex_j));
                }
                proof {
                    let is_new = |a: int, b: int| (a == vertex_i && b == vertex_j) || (a == vertex_j && b == vertex_i);
                    assert forall|a: int, b: int| #[trigger] pair_seen(nb@, i as int, j + 1, a, b) == (pair_seen(nb@, i as int, j as int, a, b) || is_new(a, b)) by {
                        lemma_pair_seen_step(nb@, i as int, j as int, a, b);
                    }
                    lemma_pair_seen_step(nb@, i as int, j as int, vertex_i as int, vertex_j as int);
                    assert forall|a: int, b: int| 0 <= a < g.len() implies (#[trigger] self@[a].contains(
                        b,
                    ) == (g[a].contains(b) || pair_seen(nb@, i as int, j + 1, a, b))) by {
                        if before[vertex_i as int].contains(vertex_j as int) {
                            assert(before[vertex_j as int].contains(vertex_i as int));
                        }
                    }
                    // the newly seen pair was recorded exactly when it was missing from `g`
                    assert(was_added == !g[vertex_i as int].contains(vertex_j as int)) by {
                        assert(!pair_seen(nb@, i as int, j as int, vertex_i as int, vertex_j as int));
                        assert(!pair_seen(nb@, i as int, j as int, vertex_j as int, vertex_i as int));
                    }
                    if was_added {
                        assert(!before_added.contains((vertex_i, vertex_j))) by {
                            if before_added.contains((vertex_i, vertex_j)) {
                                let k = choose|k: int| 0 <= k < before_added.len() && before_added[k] == (vertex_i, vertex_j);
                                assert(pair_seen(nb@, i as int, j as int, vertex_i as int, vertex_j as int));
                            }
                        }
                        assert(!before_added.contains((vertex_j, vertex_i))) by {
                            if before_added.contains((vertex_j, vertex_i)) {
                                let k = choose|k: int| 0 <= k < before_added.len() && before_added[k] == (vertex_j, vertex_i);
                                assert(pair_seen(nb@, i as int, j as int, vertex_i as int, vertex_j as int));
                            }
                        }
                        assert(vertex_i != vertex_j) by {
                            assert(nb@[i as int] != nb@[j as int]);
                        }
                        assert forall|k1: int, k2: int|
                            #![trigger added@[k1], added@[k2]]
                            0 <= k1 < added@.len() && 0 <= k2 < added@.len() implies added@[k1].0 != added@[k2].1
                                || added@[k1].1 != added@[k2].0 by {
                            let last = before_added.len() as int;
                            if k1 < last && k2 < last {
                                assert(added@[k1] == before_added[k1] && added@[k2] == before_added[k2]);
                            } else if k1 < last {
                                assert(added@[k1] == before_added[k1]);
                                if added@[k1] == (vertex_j, vertex_i) {
                                    assert(before_added.contains((vertex_j, vertex_i)));
                                }
                            } else if k2 < last {
                                assert(added@[k2] == before_added[k2]);
                                if added@[k2] == (vertex_j, vertex_i) {
                                    assert(before_added.contains((vertex_j, vertex_i)));
                                }
                            }
                        }
                    }
                    assert forall|a: usize, b: usize|
                        (exists|k: int| 0 <= k < added@.len() && (added@[k] == (a, b) || added@[k] == (b, a)))
                            == (#[trigger] pair_seen(nb@, i as int, j + 1, a as int, b as int) && !g[a as int].contains(b as int)) by {
                        let old_has = exists|k: int| 0 <= k < before_added.len() && (before_added[k] == (a, b) || before_added[k] == (b, a));
                        assert(old_has == (pair_seen(nb@, i as int, j as int, a as int, b as int) && !g[a as int].contains(b as int)));
                        if exists|k: int| 0 <= k < added@.len() && (added@[k] == (a, b) || added@[k] == (b, a)) {
                            let k = choose|k: int| 0 <= k < added@.len() && (added@[k] == (a, b) || added@[k] == (b, a));
                            if k < before_added.len() {
                                assert(before_added[k] == added@[k]);
                            } else {
                                assert(is_new(a as int, b as int));
                                assert(g[vertex_i as int].contains(vertex_j as int) == g[vertex_j as int].contains(vertex_i as int));
                            }
                        }
                        if old_has {
                            let k = choose|k: int| 0 <= k < before_added.len() && (before_added[k] == (a, b) || before_added[k] == (b, a));
                            assert(added@[k] == before_added[k]);
                        }
                        if was_added && is_new(a as int, b as int) {
                            assert(added@[before_added.len() as int] == (vertex_i, vertex_j));
                            assert(g[vertex_i as int].contains(vertex_j as int) == g[vertex_j as int].contains(vertex_i as int));
                        }
                    }
                }
                j = j + 1;
            }
            proof {
                lemma_records_next_row(added@, g, nb@, i as int);
                assert(self.lists() == clique_lists(l0, nb@, i + 1));
            }
            i = i + 1;
        }
        proof {
            assert forall|k: int| 0 <= k < g.len() implies #[trigger] self@[k] =~= clique_view(
                g,
                entries(nb@),
            )[k] by {
                assert forall|b: int| #[trigger] self@[k].contains(b) == clique_view(
                    g,
                    entries(nb@),
                )[k].contains(b) by {
                    lemma_all_pairs_seen(nb@, k, b);
                }
            }
            assert(self@ =~= clique_view(g, entries(nb@)));
            assert(entries(nb@) == shifted_nbrs(g0, v as int));
            assert(clique_lists(l0, nb@, num as int) == clique_lists(l0, nb@, num - 1));
            lemma_fill_edges_listed(added@, nb@, g0, v as int);
            assert(lists_fill_edges(added@, old(self)@, v as int));
            lemma_fill_edges_count(added@, old(self)@, v as int);
        }
        added
    }
}

/// Whether `text` is a graph6 text of `g`: the size field, then the `(n(n-1)/2 + 5) / 6` data
/// bytes that mark the edges of `g`, listed each once.
pub open spec fn g6_text_of(text: Seq<char>, g: Nbrs) -> bool {
    exists|es: Seq<(usize, usize)>, data: Seq<u8>|
        lists_edges(es, g) && encodes(data, es, g.len() as int) && text == ascii_chars(
            spec_to_size(g.len() as usize) + data,
        )
}

/// Edges that list, in either orientation, exactly the pairs of a list of the edges of `g`
/// describe `g`.
proof fn lemma_same_pairs_graph(g: Nbrs, es: Seq<(usize, usize)>, found: Seq<(usize, usize)>)
    requires
        is_graph(g),
        g.len() <= usize::MAX,
        lists_edges(es, g),
        forall|e: (usize, usize)| #[trigger] found.contains(e) == es.contains(e),
    ensures
        edges_graph(g.len() as int, found) == g,
{
    let n = g.len() as int;
    assert forall|i: int| 0 <= i < n implies #[trigger] edges_graph(n, found)[i] =~= g[i] by {
        assert forall|j: int| #[trigger] edges_graph(n, found)[i].contains(j) == g[i].contains(j) by {
            if edges_graph(n, found)[i].contains(j) {
                let k = choose|k: int|
                    0 <= k < found.len() && ((found[k].0 == i && found[k].1 == j) || (found[k].0 == j
                        && found[k].1 == i));
                assert(found.contains(found[k]));
                assert(es.contains(found[k]));
                let t = choose|t: int| 0 <= t < es.len() && es[t] == found[k];
                assert(g[es[t].0 as int].contains(es[t].1 as int));
            }
            if g[i].contains(j) {
                let (a, b) = if i < j {
                    (i, j)
                } else {
                    (j, i)
                };
                assert(0 <= j < n && j != i);
                assert(g[a].contains(b));
                assert(0 <= a < b < n);
                let t = choose|t: int| 0 <= t < es.len() && es[t] == (a as usize, b as usize);
                assert(es.contains(es[t]));
                assert(found.contains(es[t]));
                let k = choose|k: int| 0 <= k < found.len() && found[k] == es[t];
                assert(found[k].0 as int == a && found[k].1 as int == b);
                assert((found[k].0 == i && found[k].1 == j) || (found[k].0 == j && found[k].1 == i));
            }
        }
    }
    assert(edges_graph(n, found) =~= g);
}

/// Reading back a graph6 text that `to_g6` writes: the size field is readable and gives the
/// number of vertices, and the data bytes after it mark exactly the edges of the graph, all
/// between its vertices. So `from_g6` on such a text gives back the graph.
#[verifier::spinoff_prover]
pub proof fn lemma_g6_round_trip(text: &str, g: Nbrs)
    requires
        is_graph(g),
        g.len() <= 258047,
        g6_text_of(text@, g),
    ensures
        size_readable(text.spec_bytes()),
        spec_get_size(text.spec_bytes()) == Ok::<usize, Error>(g.len() as usize),
        edges_within(text.spec_bytes().skip(data_start(g.len() as usize)), g.len() as int),
        scan_bytes(text.spec_bytes().skip(data_start(g.len() as usize)), g.len() as int) is Some,
        edges_graph(
            g.len() as int,
            scan_bytes(text.spec_bytes().skip(data_start(g.len() as usize)), g.len() as int)->Some_0.edges,
        ) == g,
{
    let n = g.len() as usize;
    let (es, data) = choose|es: Seq<(usize, usize)>, data: Seq<u8>|
        lists_edges(es, g) && encodes(data, es, n as int) && text@ == ascii_chars(spec_to_size(n) + data);
    let bytes = spec_to_size(n) + data;
    crate::utils::g6::lemma_low6(n);
    assert forall|i: int| 0 <= i < bytes.len() implies 63 <= #[trigger] bytes[i] < 127 by {
        if i >= spec_to_size(n).len() {
            assert(bytes[i] == data[i - spec_to_size(n).len()]);
        }
    }
    assert(vstd::string::is_ascii(text)) by {
        assert forall|i: int| 0 <= i < text@.len() implies '\0' <= #[trigger] text@[i] <= '\u{7f}' by {
            assert(text@[i] == bytes[i] as char);
        }
    }
    vstd::string::is_ascii_spec_bytes(text);
    assert(text.spec_bytes() =~= bytes) by {
        assert forall|i: int| 0 <= i < bytes.len() implies #[trigger] text.spec_bytes()[i] == bytes[i] by {
            assert(text@[i] == bytes[i] as char);
        }
    }
    lemma_size_back(n, data);
    assert forall|k: int| 0 <= k < es.len() implies #[trigger] es[k].0 < es[k].1 < n by {
        assert(es[k].0 < es[k].1 < g.len());
    }
    assert(edges_in_triangle(es, n as int));
    if n == 0 {
        crate::utils::g6::lemma_data_len_bound(0);
        assert(data.len() == 0);
        assert(data =~= Seq::<u8>::empty());
        assert(scan_bytes(data, 0) == Some(crate::utils::g6::ScanState { edges: seq![], row: 0, col: 1 }));
        assert(edges_graph(0, Seq::<(usize, usize)>::empty()) =~= g);
    } else {
        lemma_scan_encoded(es, n as int, data);
        let found = scan_bytes(data, n as int)->Some_0.edges;
        assert forall|i: int| 0 <= i < found.len() implies #[trigger] found[i].1 < n by {
            assert(found[i].0 < found[i].1 < n);
        }
        lemma_same_pairs_graph(g, es, found);
    }
}

impl Graph {
    /// The graph on `n` vertices with the listed edges.
    pub(crate) fn from_edges(n: usize, edges: &Vec<(usize, usize)>) -> (r: Graph)
        requires
            n * n <= usize::MAX,
            forall|k: int| 0 <= k < edges@.len() ==> #[trigger] edges@[k].0 < edges@[k].1 < n,
        ensures
            r.wf(),
            r@ == edges_graph(n as int, edges@),
    {
        let mut graph = Graph::new(n);
        proof {
            let start = edges_graph(n as int, edges@.take(0));
            assert forall|a: int| 0 <= a < n implies #[trigger] graph@[a] =~= start[a] by {}
            assert(graph@ =~= start);
        }
        let mut k: usize = 0;
        while k < edges.len()
            invariant
                k <= edges@.len(),
                forall|c: int| 0 <= c < edges@.len() ==> #[trigger] edges@[c].0 < edges@[c].1 < n,
                graph.wf(),
                graph@ == edges_graph(n as int, edges@.take(k as int)),
            decreases edges@.len() - k,
        {
            let (i, j) = edges[k];
            let ghost before = graph@;
            let added = graph.add_edge(i, j);
            proof {
                let old_es = edges@.take(k as int);
                let new_es = edges@.take(k + 1);
                assert(new_es[k as int] == (i, j));
                let next = edges_graph(n as int, new_es);
                assert forall|a: int| 0 <= a < n implies #[trigger] graph@[a] =~= next[a] by {
                    assert forall|b: int| #[trigger] graph@[a].contains(b) == next[a].contains(b) by {
                        if next[a].contains(b) {
                            let c = choose|c: int|
                                0 <= c < new_es.len() && ((new_es[c].0 == a && new_es[c].1 == b) || (
                                new_es[c].0 == b && new_es[c].1 == a));
                            if c < k {
                                assert(old_es[c] == new_es[c]);
                            }
                        }
                        if before[a].contains(b) {
                            let c = choose|c: int|
                                0 <= c < old_es.len() && ((old_es[c].0 == a && old_es[c].1 == b) || (
                                old_es[c].0 == b && old_es[c].1 == a));
                            assert(new_es[c] == old_es[c]);
                        }
                        if !added {
                            assert(before[i as int].contains(j as int));
                        }
                    }
                }
                assert(graph@ =~= next);
            }
            k = k + 1;
        }
        proof {
            assert(edges@.take(edges@.len() as int) =~= edges@);
        }
        graph
    }

    /// Reads a graph from a graph6 string.
    ///
    /// Fails with the error of reading the size field, or with `InvalidFormat` when a data
    /// byte lies below 63.
    pub fn from_g6(repr: &str) -> (r: Result<Graph, Error>)
        requires
            size_readable(repr.spec_bytes()),
            spec_get_size(repr.spec_bytes()) matches Ok(n) ==> n * n <= usize::MAX && edges_within(
                repr.spec_bytes().skip(data_start(n)),
                n as int,
            ),
        ensures
            match spec_get_size(repr.spec_bytes()) {
                Err(e) => r == Err::<Graph, Error>(e),
                Ok(n) => match scan_bytes(repr.spec_bytes().skip(data_start(n)), n as int) {
                    None => r == Err::<Graph, Error>(Error::InvalidFormat),
                    Some(st) => r matches Ok(g) && g.wf() && g@ == edges_graph(n as int, st.edges),
                },
            },
    {
        let bytes = repr.as_bytes();
        let n = match get_size(bytes) {
            Ok(n) => n,
            Err(e) => return Err(e),
        };
        let start_index: usize = if n <= 62 {
            1
        } else {
            4
        };
        proof {
            assert(bytes@.len() >= start_index);
        }
        let data = vstd::slice::slice_subrange(bytes, start_index, bytes.len());
        proof {
            assert(data@ =~= bytes@.skip(start_index as int));
        }
        let edges = match get_edges(data, n) {
            Ok(edges) => edges,
            Err(e) => return Err(e),
        };
        Ok(Graph::from_edges(n, &edges))
    }

    /// Writes the graph in graph6 format.
    pub fn to_g6(&self) -> (r: String)
        requires
            self.wf(),
            self@.len() <= 258047,
            self@.len() * self@.len() + 4 <= usize::MAX,
        ensures
            g6_text_of(r@, self@),
    {
        proof {
            self.lemma_wf();
        }
        let mut buf = to_size(self.n);
        let mut edges: Vec<(usize, usize)> = Vec::new();
        let mut i: usize = 0;
        while i < self.n
            invariant
                self.wf(),
                i <= self@.len(),
                edges@.no_duplicates(),
                forall|c: int|
                    #![trigger edges@[c]]
                    0 <= c < edges@.len() ==> edges@[c].0 < edges@[c].1 < self@.len() && edges@[c].0
                        < i && self@[edges@[c].0 as int].contains(edges@[c].1 as int),
                forall|a: int, b: int|
                    0 <= a < b < self@.len() && a < i && #[trigger] self@[a].contains(b) ==> exists|
                        c: int,
                    | 0 <= c < edges@.len() && edges@[c] == (a as usize, b as usize),
            decreases self@.len() - i,
        {
            proof {
                self.lemma_wf();
            }
            let list = &self.adjency[i];
            let ghost l = self.lists()[i as int];
            let ghost e0 = edges@;
            let ghost mut pos: Seq<int> = Seq::empty();
            let mut k: usize = 0;
            while k < list.len()
                invariant
                    self.wf(),
                    i < self@.len(),
                    *list == self.adjency@[i as int],
                    l == list@,
                    l == self.lists()[i as int],
                    l.no_duplicates(),
                    forall|d: int| 0 <= d < l.len() ==> #[trigger] self@[i as int].contains(l[d] as int),
                    k <= l.len(),
                    edges@.len() == e0.len() + pos.len(),
                    edges@.no_duplicates(),
                    forall|c: int| 0 <= c < e0.len() ==> #[trigger] edges@[c] == e0[c],
                    forall|c: int|
                        0 <= c < e0.len() ==> #[trigger] e0[c].0 < e0[c].1 < self@.len() && e0[c].0 < i
                            && self@[e0[c].0 as int].contains(e0[c].1 as int),
                    forall|a: int, b: int|
                        0 <= a < b < self@.len() && a < i && #[trigger] self@[a].contains(b) ==> exists|
                            c: int,
                        | 0 <= c < e0.len() && e0[c] == (a as usize, b as usize),
                    forall|c: int|
                        0 <= c < pos.len() ==> 0 <= #[trigger] pos[c] < k && i < l[pos[c]] && edges@[e0.len()
                            + c] == (i, l[pos[c]]),
                    forall|d: int|
                        0 <= d < k && i < #[trigger] l[d] ==> exists|c: int| 0 <= c < pos.len() && pos[c] == d,
                decreases l.len() - k,
            {
                let j = list[k];
                let ghost pos0 = pos;
                if i < j {
                    proof {
                        assert(!edges@.contains((i, j))) by {
                            if edges@.contains((i, j)) {
                                let c = choose|c: int| 0 <= c < edges@.len() && edges@[c] == (i, j);
                                if c < e0.len() {
                                    assert(edges@[c] == e0[c]);
                                    assert(e0[c].0 < i);
                                } else {
                                    let c2 = c - e0.len();
                                    let p = pos[c2];
                                    assert(e0.len() + c2 == c);
                                    assert(edges@[e0.len() + c2] == (i, l[p]));
                                    assert(l[p] == l[k as int]);
                                }
                            }
                        }
                    }
                    edges.push((i, j));
                    proof {
                        pos = pos.push(k as int);
                    }
                }
                proof {
                    assert forall|d: int| 0 <= d < k + 1 && i < #[trigger] l[d] implies exists|c: int|
                        0 <= c < pos.len() && pos[c] == d by {
                        if d == k {
                            assert(pos[pos.len() - 1] == d);
                        } else {
                            let c = choose|c: int| 0 <= c < pos0.len() && pos0[c] == d;
                            assert(pos[c] == pos0[c]);
                        }
                    }
                }
                k = k + 1;
            }
            proof {
                assert forall|c: int|
                    #![trigger edges@[c]]
                    0 <= c < edges@.len() implies edges@[c].0 < edges@[c].1 < self@.len() && edges@[c].0
                        < i + 1 && self@[edges@[c].0 as int].contains(edges@[c].1 as int) by {
                    if c < e0.len() {
                        assert(edges@[c] == e0[c]);
                        assert(e0[c].0 < i);
                    } else {
                        let c2 = c - e0.len();
                        assert(e0.len() + c2 == c);
                        assert(pos[c2] < l.len());
                        assert(self@[i as int].contains(l[pos[c2]] as int));
                    }
                }
                assert forall|a: int, b: int|
                    0 <= a < b < self@.len() && a < i + 1 && #[trigger] self@[a].contains(b)
                        implies exists|c: int| 0 <= c < edges@.len() && edges@[c] == (a as usize, b as usize) by {
                    if a == i {
                        assert(self.lists()[i as int].contains(b as usize));
                        let d = choose|d: int| 0 <= d < l.len() && l[d] == b as usize;
                        assert(i < l[d]);
                        let c = choose|c: int| 0 <= c < pos.len() && pos[c] == d;
                        assert(edges@[e0.len() + c] == (a as usize, b as usize));
                    } else {
                        let c = choose|c: int| 0 <= c < e0.len() && e0[c] == (a as usize, b as usize);
                        assert(edges@[c] == e0[c]);
                    }
                }
            }
            i = i + 1;
        }
        let ghost es = edges@;
        let ghost size = buf@;
        proof {
            assert forall|k: int| 0 <= k < es.len() implies #[trigger] es[k].0 < es[k].1 < self@.len() by {}
        }
        to_edges(&edges, self.n, &mut buf);
        proof {
            assert(buf@.take(size.len() as int) == size);
            buf@.lemma_split_at(size.len() as int);
            assert(buf@ =~= size + buf@.skip(size.len() as int));
            assert forall|k: int| 0 <= k < buf@.len() implies #[trigger] buf@[k] < 128 by {
                if k >= size.len() {
                    assert(buf@[k] == buf@.skip(size.len() as int)[k - size.len()]);
                }
            }
            assert(lists_edges(es, self@));
        }
        match ascii_string(buf) {
            Ok(text) => text,
            Err(_) => {
                proof {
                    assert(false);
                }
                String::new()
            },
        }
    }
}

} // verus!
