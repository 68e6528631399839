//! An undirected graph stored as one bitset of neighbours per vertex.

use vstd::prelude::*;
use vstd::string::StringSliceAdditionalSpecFns;
use crate::graph::adjlist;
use crate::graph::model::{
    add_edge_view, complete_graph, complete_prefix, cycle_graph, cycle_prefix, path_prefix, edges_graph, empty_graph, is_graph,
    lemma_add_edge_count, lemma_edge_pairs_finite, lemma_empty_graph_edges, lemma_remove_edge_count, next_around,
    num_edges, path_graph, remove_edge_view, Nbrs,
};
use crate::utils::bitset::{capacity_for, lists_in_order, BitSet};
use crate::utils::g6::{
    data_start, edges_within, get_edges, get_size, scan_bytes, size_readable, spec_get_size, Error,
};

verus! {

/// Whether `b` has the variant and capacity that `BitSet::new(n)` gives.
pub open spec fn shaped_for(b: BitSet, n: int) -> bool {
    &&& b.capacity() == capacity_for(n)
    &&& b.wf()
    &&& n <= 64 ==> b is Small
    &&& 64 < n <= 128 ==> b is Medium
    &&& n > 128 ==> b is Large
}

/// Two bitsets shaped for the same number of vertices can be combined word by word.
pub proof fn lemma_shaped_same_variant(a: BitSet, b: BitSet, n: int)
    requires
        shaped_for(a, n),
        shaped_for(b, n),
    ensures
        a.same_variant(&b),
        b.same_variant(&a),
        a.capacity() == b.capacity(),
{
}

/// The neighbour sets that a sequence of bitsets describes.
pub open spec fn sets_view(sets: Seq<BitSet>) -> Nbrs {
    Seq::new(sets.len(), |i: int| sets[i]@)
}

/// An undirected graph on the vertices `0..n`, stored as one bitset of neighbours per vertex.
#[derive(Debug, Clone)]
pub struct Graph {
    n: usize,
    m: usize,
    adjency: Vec<BitSet>,
}

/// `n * n` fits in a `usize`, so a bitset over `0..n` does too.
pub proof fn lemma_small_n(n: int)
    requires
        0 <= n,
        n * n <= usize::MAX,
    ensures
        n <= usize::MAX - 63,
        capacity_for(n) <= usize::MAX,
        capacity_for(n) >= n,
{
    if n >= 64 {
        assert(n * n >= 64 * n) by (nonlinear_arith)
            requires
                n >= 64,
        ;
    }
}

impl Graph {
    /// The bitsets are shaped for `n` vertices, and `n * n` fits in a `usize`.
    pub closed spec fn structure_ok(&self) -> bool {
        &&& self.adjency@.len() == self.n
        &&& forall|i: int| 0 <= i < self.n ==> #[trigger] shaped_for(self.adjency@[i], self.n as int)
        &&& self.n * self.n <= usize::MAX
    }

    /// The bitsets describe a simple undirected graph and the edge count is right.
    pub closed spec fn wf(&self) -> bool {
        &&& self.structure_ok()
        &&& is_graph(sets_view(self.adjency@))
        &&& self.m == num_edges(sets_view(self.adjency@))
    }

    /// A well-formed graph is a simple undirected graph with well-shaped bitsets.
    pub proof fn lemma_wf(&self)
        requires
            self.wf(),
        ensures
            self.structure_ok(),
            is_graph(self@),
            self@.len() * self@.len() <= usize::MAX,
    {
    }

    /// The neighbour bitset of every vertex has the shape `BitSet::new(n)` gives.
    pub proof fn lemma_shapes(&self)
        requires
            self.structure_ok(),
        ensures
            self@.len() * self@.len() <= usize::MAX,
            forall|i: int| 0 <= i < self@.len() ==> #[trigger] self.sets()[i]@ == self@[i],
            forall|i: int| 0 <= i < self@.len() ==> #[trigger] shaped_for(self.sets()[i], self@.len() as int),
            self.sets().len() == self@.len(),
    {
    }

    /// The recorded number of edges.
    pub closed spec fn edge_count(&self) -> int {
        self.m as int
    }

    /// The neighbour bitsets.
    pub closed spec fn sets(&self) -> Seq<BitSet> {
        self.adjency@
    }
}

impl View for Graph {
    type V = Nbrs;

    open spec fn view(&self) -> Nbrs {
        sets_view(self.sets())
    }
}

impl Graph {
    /// Creates a graph with `n` vertices and no edges.
    pub fn new(n: usize) -> (r: Graph)
        requires
            n * n <= usize::MAX,
        ensures
            r.wf(),
            r@ == empty_graph(n as int),
    {
        proof {
            lemma_small_n(n as int);
        }
        let mut adjency: Vec<BitSet> = Vec::new();
        let mut i: usize = 0;
        while i < n
            invariant
                i <= n,
                n * n <= usize::MAX,
                adjency@.len() == i,
                forall|k: int| 0 <= k < i ==> #[trigger] shaped_for(adjency@[k], n as int),
                forall|k: int| 0 <= k < i ==> (#[trigger] adjency@[k])@ == Set::<int>::empty(),
            decreases n - i,
        {
            proof {
                lemma_small_n(n as int);
            }
            let b = BitSet::new(n);
            adjency.push(b);
            i = i + 1;
        }
        let g = Graph { n, m: 0, adjency };
        proof {
            assert(g@ =~= empty_graph(n as int));
            lemma_empty_graph_edges(n as int);
        }
        g
    }

    /// Creates the cycle on `n` vertices (`n != 1`): vertex `i` is joined to `(i + 1) % n`.
    pub fn new_cycle(n: usize) -> (r: Graph)
        requires
            n * n <= usize::MAX,
            n != 1,
        ensures
            r.wf(),
            r@ == cycle_graph(n as int),
    {
        let mut graph = Graph::new(n);
        proof {
            let start = cycle_prefix(n as int, 0);
            assert forall|a: int| 0 <= a < n implies #[trigger] graph@[a] =~= start[a] by {}
            assert(graph@ =~= start);
        }
        let mut i: usize = 0;
        while i < n
            invariant
                i <= n,
                n != 1,
                graph.wf(),
                graph@ == cycle_prefix(n as int, i as int),
            decreases n - i,
        {
            let j = if i + 1 == n {
                0
            } else {
                i + 1
            };
            let ghost before = graph@;
            let added = graph.add_edge(i, j);
            proof {
                let next = cycle_prefix(n as int, i + 1);
                assert forall|a: int| 0 <= a < n implies #[trigger] graph@[a] =~= next[a] by {
                    if !added {
                        assert(before[i as int].contains(j as int));
                    }
                }
                assert(graph@ =~= next);
            }
            i = i + 1;
        }
        proof {
            assert forall|a: int| 0 <= a < n implies #[trigger] graph@[a] =~= cycle_graph(n as int)[a] by {}
            assert(graph@ =~= cycle_graph(n as int));
        }
        graph
    }

    /// Creates the complete graph on `n` vertices.
    pub fn new_complete(n: usize) -> (r: Graph)
        requires
            n * n <= usize::MAX,
        ensures
            r.wf(),
            r@ == complete_graph(n as int),
    {
        let mut graph = Graph::new(n);
        proof {
            let start = complete_prefix(n as int, 0, 0);
            assert forall|a: int| 0 <= a < n implies #[trigger] graph@[a] =~= start[a] by {}
            assert(graph@ =~= start);
        }
        let mut i: usize = 0;
        while i < n
            invariant
                i <= n,
                graph.wf(),
                graph@ == complete_prefix(n as int, i as int, 0),
            decreases n - i,
        {
            let mut j: usize = i + 1;
            proof {
                let target = complete_prefix(n as int, i as int, j as int);
                assert forall|a: int| 0 <= a < n implies #[trigger] graph@[a] =~= target[a] by {}
                assert(graph@ =~= target);
            }
            while j < n
                invariant
                    i < j <= n,
                    graph.wf(),
                    graph@ == complete_prefix(n as int, i as int, j as int),
                decreases n - j,
            {
                graph.add_edge(i, j);
                proof {
                    let next = complete_prefix(n as int, i as int, j + 1);
                    assert forall|a: int| 0 <= a < n implies #[trigger] graph@[a] =~= next[a] by {}
                    assert(graph@ =~= next);
                }
                j = j + 1;
            }
            proof {
                let next = complete_prefix(n as int, i + 1, 0);
                assert forall|a: int| 0 <= a < n implies #[trigger] graph@[a] =~= next[a] by {}
                assert(graph@ =~= next);
            }
            i = i + 1;
        }
        proof {
            assert forall|a: int| 0 <= a < n implies #[trigger] graph@[a] =~= complete_graph(n as int)[a] by {}
            assert(graph@ =~= complete_graph(n as int));
        }
        graph
    }

    /// Creates the path on `n >= 1` vertices: vertex `i` is joined to `i + 1`.
    pub fn new_path(n: usize) -> (r: Graph)
        requires
            n * n <= usize::MAX,
            n >= 1,
        ensures
            r.wf(),
            r@ == path_graph(n as int),
    {
        let mut graph = Graph::new(n);
        proof {
            let start = path_prefix(n as int, 0);
            assert forall|a: int| 0 <= a < n implies #[trigger] graph@[a] =~= start[a] by {}
            assert(graph@ =~= start);
        }
        let mut i: usize = 0;
        while i < n - 1
            invariant
                i <= n - 1,
                graph.wf(),
                graph@ == path_prefix(n as int, i as int),
            decreases n - 1 - i,
        {
            graph.add_edge(i, i + 1);
            proof {
                let next = path_prefix(n as int, i + 1);
                assert forall|a: int| 0 <= a < n implies #[trigger] graph@[a] =~= next[a] by {}
                assert(graph@ =~= next);
            }
            i = i + 1;
        }
        proof {
            assert forall|a: int| 0 <= a < n implies #[trigger] graph@[a] =~= path_graph(n as int)[a] by {}
            assert(graph@ =~= path_graph(n as int));
        }
        graph
    }

    /// The number of vertices.
    pub fn n(&self) -> (r: usize)
        requires
            self.structure_ok(),
        ensures
            r == self@.len(),
    {
        self.n
    }

    /// The number of edges.
    pub fn m(&self) -> (r: usize)
        requires
            self.wf(),
        ensures
            r == num_edges(self@),
    {
        self.m
    }

    /// Whether `i` is a vertex.
    pub fn has_vertex(&self, i: usize) -> (r: bool)
        requires
            self.structure_ok(),
        ensures
            r == (i < self@.len()),
    {
        i < self.n
    }

    /// A copy of the neighbours of `i`, or `None` when `i` is not a vertex.
    pub fn neighbors(&self, i: usize) -> (r: Option<BitSet>)
        requires
            self.structure_ok(),
        ensures
            i < self@.len() ==> (r matches Some(b) && b@ == self@[i as int] && shaped_for(
                b,
                self@.len() as int,
            )),
            i >= self@.len() ==> r is None,
    {
        if i < self.adjency.len() {
            let b = self.adjency[i].duplicate();
            proof {
                assert(shaped_for(self.adjency@[i as int], self.n as int));
            }
            Some(b)
        } else {
            None
        }
    }

    /// The neighbours of `i`, or `None` when `i` is not a vertex.
    pub fn neighbors_ref(&self, i: usize) -> (r: Option<&BitSet>)
        requires
            self.structure_ok(),
        ensures
            i < self@.len() ==> (r matches Some(b) && b@ == self@[i as int] && shaped_for(
                *b,
                self@.len() as int,
            )),
            i >= self@.len() ==> r is None,
    {
        if i < self.adjency.len() {
            proof {
                assert(shaped_for(self.adjency@[i as int], self.n as int));
            }
            Some(&self.adjency[i])
        } else {
            None
        }
    }

    /// Whether `i` and `j` are adjacent.
    pub fn has_edge(&self, i: usize, j: usize) -> (r: bool)
        requires
            self.structure_ok(),
            i < self@.len(),
            j < self@.len(),
        ensures
            r == self@[i as int].contains(j as int),
    {
        proof {
            assert(shaped_for(self.adjency@[i as int], self.n as int));
            lemma_small_n(self.n as int);
        }
        self.adjency[i].contains(j)
    }

    /// The degree of `v`.
    pub fn degree(&self, v: usize) -> (r: usize)
        requires
            self.structure_ok(),
            v < self@.len(),
        ensures
            r == self@[v as int].len(),
    {
        proof {
            assert(shaped_for(self.adjency@[v as int], self.n as int));
        }
        self.adjency[v].len()
    }

    /// Adds `j` to the neighbours of `i`; returns whether it was missing.
    fn add_arc(&mut self, i: usize, j: usize) -> (r: bool)
        requires
            old(self).structure_ok(),
            i < old(self)@.len(),
            j < old(self)@.len(),
        ensures
            final(self).structure_ok(),
            final(self).edge_count() == old(self).edge_count(),
            r == !old(self)@[i as int].contains(j as int),
            final(self)@ == old(self)@.update(i as int, old(self)@[i as int].insert(j as int)),
    {
        proof {
            assert(shaped_for(self.adjency@[i as int], self.n as int));
            lemma_small_n(self.n as int);
        }
        if self.adjency[i].contains(j) {
            assert(self@[i as int].insert(j as int) =~= self@[i as int]);
            assert(self@ =~= self@.update(i as int, self@[i as int].insert(j as int)));
            return false;
        }
        let mut b = self.adjency[i].duplicate();
        b.insert(j);
        let ghost old_sets = self.adjency@;
        self.adjency.set(i, b);
        proof {
            assert forall|k: int| 0 <= k < self.n implies #[trigger] shaped_for(self.adjency@[k], self.n as int) by {
                if k != i {
                    assert(self.adjency@[k] == old_sets[k]);
                }
            }
            assert(self@ =~= old(self)@.update(i as int, old(self)@[i as int].insert(j as int)));
        }
        true
    }

    /// Removes `j` from the neighbours of `i` (only this direction); returns whether it was
    /// there.
    pub fn remove_arc(&mut self, i: usize, j: usize) -> (r: bool)
        requires
            old(self).structure_ok(),
            i < old(self)@.len(),
            j < old(self)@.len(),
        ensures
            final(self).structure_ok(),
            final(self).edge_count() == old(self).edge_count(),
            r == old(self)@[i as int].contains(j as int),
            final(self)@ == old(self)@.update(i as int, old(self)@[i as int].remove(j as int)),
    {
        proof {
            assert(shaped_for(self.adjency@[i as int], self.n as int));
            lemma_small_n(self.n as int);
        }
        if !self.adjency[i].contains(j) {
            assert(self@[i as int].remove(j as int) =~= self@[i as int]);
            assert(self@ =~= self@.update(i as int, self@[i as int].remove(j as int)));
            return false;
        }
        let mut b = self.adjency[i].duplicate();
        b.remove(j);
        let ghost old_sets = self.adjency@;
        self.adjency.set(i, b);
        proof {
            assert forall|k: int| 0 <= k < self.n implies #[trigger] shaped_for(self.adjency@[k], self.n as int) by {
                if k != i {
                    assert(self.adjency@[k] == old_sets[k]);
                }
            }
            assert(self@ =~= old(self)@.update(i as int, old(self)@[i as int].remove(j as int)));
        }
        true
    }

    /// Adds the edge `{i, j}`; returns whether it was inserted. A loop (`i == j`) is never
    /// inserted: the graph stays as it was.
    pub fn add_edge(&mut self, i: usize, j: usize) -> (r: bool)
        requires
            old(self).wf(),
            i < old(self)@.len(),
            j < old(self)@.len(),
        ensures
            final(self).wf(),
            r == (i != j && !old(self)@[i as int].contains(j as int)),
            final(self)@ == if r {
                add_edge_view(old(self)@, i as int, j as int)
            } else {
                old(self)@
            },
    {
        if i == j {
            return false;
        }
        let ghost g = self@;
        let added_ij = self.add_arc(i, j);
        if !added_ij {
            proof {
                assert(g[i as int].insert(j as int) =~= g[i as int]);
                assert(self@ =~= g);
            }
            return false;
        }
        let added_ji = self.add_arc(j, i);
        proof {
            assert(!g[j as int].contains(i as int));
            assert(self@ =~= add_edge_view(g, i as int, j as int));
            lemma_add_edge_count(g, i as int, j as int);
            lemma_edge_pairs_finite(self@);
        }
        self.m = self.m + 1;
        true
    }

    /// Removes the edge `{i, j}`; returns whether it was present.
    pub fn remove_edge(&mut self, i: usize, j: usize) -> (r: bool)
        requires
            old(self).wf(),
            i < old(self)@.len(),
            j < old(self)@.len(),
        ensures
            final(self).wf(),
            r == old(self)@[i as int].contains(j as int),
            final(self)@ == if r {
                remove_edge_view(old(self)@, i as int, j as int)
            } else {
                old(self)@
            },
    {
        let ghost g = self@;
        let removed_ij = self.remove_arc(i, j);
        if !removed_ij {
            proof {
                assert(g[i as int].remove(j as int) =~= g[i as int]);
                assert(self@ =~= g);
            }
            return false;
        }
        let removed_ji = self.remove_arc(j, i);
        proof {
            assert(g[j as int].contains(i as int));
            assert(self@ =~= remove_edge_view(g, i as int, j as int));
            lemma_remove_edge_count(g, i as int, j as int);
        }
        self.m = self.m - 1;
        true
    }
}

impl Graph {
    /// The graph on `n` vertices with the listed edges.
    pub(crate) fn from_edges(n: usize, edges: &Vec<(usize, usize)>) -> (r: Graph)
        requires
            n * n <= usize::MAX,
            forall|k: int| 0 <= k < edges@.len() ==> #[trigger] edges@[k].0 < edges@[k].1 < n,
        ensures
            r.wf(),
            r@ == edges_graph(n as int, edges@),
    {
        let mut graph = Graph::new(n);
        proof {
            let start = edges_graph(n as int, edges@.take(0));
            assert forall|a: int| 0 <= a < n implies #[trigger] graph@[a] =~= start[a] by {}
            assert(graph@ =~= start);
        }
        let mut k: usize = 0;
        while k < edges.len()
            invariant
                k <= edges@.len(),
                forall|c: int| 0 <= c < edges@.len() ==> #[trigger] edges@[c].0 < edges@[c].1 < n,
                graph.wf(),
                graph@ == edges_graph(n as int, edges@.take(k as int)),
            decreases edges@.len() - k,
        {
            let (i, j) = edges[k];
            let ghost before = graph@;
            let added = graph.add_edge(i, j);
            proof {
                let old_es = edges@.take(k as int);
                let new_es = edges@.take(k + 1);
                assert(new_es[k as int] == (i, j));
                let next = edges_graph(n as int, new_es);
                assert forall|a: int| 0 <= a < n implies #[trigger] graph@[a] =~= next[a] by {
                    assert forall|b: int| #[trigger] graph@[a].contains(b) == next[a].contains(b) by {
                        if next[a].contains(b) {
                            let c = choose|c: int|
                                0 <= c < new_es.len() && ((new_es[c].0 == a && new_es[c].1 == b) || (
                                new_es[c].0 == b && new_es[c].1 == a));
                            if c < k {
                                assert(old_es[c] == new_es[c]);
                            }
                        }
                        if before[a].contains(b) {
                            let c = choose|c: int|
                                0 <= c < old_es.len() && ((old_es[c].0 == a && old_es[c].1 == b) || (
                                old_es[c].0 == b && old_es[c].1 == a));
                            assert(new_es[c] == old_es[c]);
                        }
                        if !added {
                            assert(before[i as int].contains(j as int));
                        }
                    }
                }
                assert(graph@ =~= next);
            }
            k = k + 1;
        }
        proof {
            assert(edges@.take(edges@.len() as int) =~= edges@);
        }
        graph
    }

    /// Reads a graph from a graph6 string; the data bytes start after the size field.
    ///
    /// Fails with the error of reading the size field, or with `InvalidFormat` when a data
    /// byte lies below 63.
    pub fn from_g6(repr: &str) -> (r: Result<Graph, Error>)
        requires
            size_readable(repr.spec_bytes()),
            spec_get_size(repr.spec_bytes()) matches Ok(n) ==> n * n <= usize::MAX && edges_within(
                repr.spec_bytes().skip(data_start(n)),
                n as int,
            ),
        ensures
            match spec_get_size(repr.spec_bytes()) {
                Err(e) => r == Err::<Graph, Error>(e),
                Ok(n) => match scan_bytes(repr.spec_bytes().skip(data_start(n)), n as int) {
                    None => r == Err::<Graph, Error>(Error::InvalidFormat),
                    Some(st) => r matches Ok(g) && g.wf() && g@ == edges_graph(n as int, st.edges),
                },
            },
    {
        let bytes = repr.as_bytes();
        let n = match get_size(bytes) {
            Ok(n) => n,
            Err(e) => return Err(e),
        };
        let start_index: usize = if n <= 62 {
            1
        } else {
            4
        };
        proof {
            assert(bytes@.len() >= start_index);
        }
        let data = vstd::slice::slice_subrange(bytes, start_index, bytes.len());
        proof {
            assert(data@ =~= bytes@.skip(start_index as int));
        }
        let edges = match get_edges(data, n) {
            Ok(edges) => edges,
            Err(e) => return Err(e),
        };
        Ok(Graph::from_edges(n, &edges))
    }

    /// The same graph stored as adjacency lists.
    pub fn to_adjlist_graph(&self) -> (r: adjlist::Graph)
        requires
            self.wf(),
        ensures
            r.wf(),
            r@ == self@,
    {
        let mut new_graph = adjlist::Graph::new(self.n);
        let mut v: usize = 0;
        while v < self.n
            invariant
                self.wf(),
                v <= self@.len(),
                new_graph.wf(),
                new_graph@.len() == self@.len(),
                forall|a: int, b: int|
                    0 <= a < self@.len() ==> (#[trigger] new_graph@[a].contains(b) == ((a < v
                        || b < v) && self@[a].contains(b))),
            decreases self@.len() - v,
        {
            proof {
                self.lemma_shapes();
                assert(shaped_for(self.adjency@[v as int], self.n as int));
            }
            let nb = self.adjency[v].to_vec();
            let mut k: usize = 0;
            while k < nb.len()
                invariant
                    self.wf(),
                    v < self@.len(),
                    lists_in_order(nb@, self@[v as int]),
                    k <= nb@.len(),
                    new_graph.wf(),
                    new_graph@.len() == self@.len(),
                    forall|a: int, b: int|
                        0 <= a < self@.len() ==> (#[trigger] new_graph@[a].contains(b) == (((a < v
                            || b < v) || (a == v && among(nb@, k as int, b)) || (b == v && among(
                            nb@,
                            k as int,
                            a,
                        ))) && self@[a].contains(b))),
                decreases nb@.len() - k,
            {
                let u = nb[k];
                proof {
                    assert(self@[v as int].contains(u as int));
                    assert(is_graph(self@));
                }
                new_graph.add_edge(v, u);
                proof {
                    assert forall|x: int| #[trigger] among(nb@, k + 1, x) == (among(nb@, k as int, x) || x == u) by {
                        if among(nb@, k + 1, x) {
                            let d = choose|d: int| 0 <= d < k + 1 && nb@[d] == x;
                            if d < k {
                                assert(among(nb@, k as int, x));
                            }
                        }
                        if x == u {
                            assert(nb@[k as int] == x);
                        }
                        if among(nb@, k as int, x) {
                            let d = choose|d: int| 0 <= d < k && nb@[d] == x;
                            assert(nb@[d] == x);
                        }
                    }
                }
                k = k + 1;
            }
            proof {
                assert forall|a: int, b: int|
                    0 <= a < self@.len() implies (#[trigger] new_graph@[a].contains(b) == ((a < v + 1
                        || b < v + 1) && self@[a].contains(b))) by {
                    if a == v && self@[a].contains(b) {
                        let d = choose|d: int| 0 <= d < nb@.len() && nb@[d] == b;
                        assert(among(nb@, nb@.len() as int, b));
                    }
                    if b == v && self@[a].contains(b) {
                        assert(self@[b].contains(a));
                        let d = choose|d: int| 0 <= d < nb@.len() && nb@[d] == a;
                        assert(among(nb@, nb@.len() as int, a));
                    }
                }
            }
            v = v + 1;
        }
        proof {
            assert forall|a: int| 0 <= a < self@.len() implies #[trigger] new_graph@[a] =~= self@[a] by {}
            assert(new_graph@ =~= self@);
        }
        new_graph
    }
}

impl Graph {
    /// The same graph stored as bitsets.
    pub fn from_adjlist(g: &adjlist::Graph) -> (r: Graph)
        requires
            g.wf(),
        ensures
            r.wf(),
            r@ == g@,
    {
        proof {
            g.lemma_wf();
        }
        let n = g.n();
        let mut new_graph = Graph::new(n);
        let mut v: usize = 0;
        while v < n
            invariant
                g.wf(),
                n == g@.len(),
                is_graph(g@),
                v <= n,
                new_graph.wf(),
                new_graph@.len() == n,
                forall|a: int, b: int|
                    0 <= a < n ==> (#[trigger] new_graph@[a].contains(b) == ((a < v || b < v)
                        && g@[a].contains(b))),
            decreases n - v,
        {
            let nb = g.neighbors_ref(v).unwrap();
            let mut k: usize = 0;
            while k < nb.len()
                invariant
                    g.wf(),
                    n == g@.len(),
                    is_graph(g@),
                    v < n,
                    nb@ == g.lists()[v as int],
                    k <= nb@.len(),
                    new_graph.wf(),
                    new_graph@.len() == n,
                    forall|a: int, b: int|
                        0 <= a < n ==> (#[trigger] new_graph@[a].contains(b) == (((a < v || b < v)
                            || (a == v && among(nb@, k as int, b)) || (b == v && among(nb@, k as int, a)))
                            && g@[a].contains(b))),
                decreases nb@.len() - k,
            {
                let u = nb[k];
                proof {
                    g.lemma_wf();
                    assert(g.lists()[v as int].contains(u));
                    assert(g@[v as int].contains(u as int));
                }
                new_graph.add_edge(v, u);
                proof {
                    assert forall|x: int| #[trigger] among(nb@, k + 1, x) == (among(nb@, k as int, x) || x == u) by {
                        if among(nb@, k + 1, x) {
                            let d = choose|d: int| 0 <= d < k + 1 && nb@[d] == x;
                            if d < k {
                                assert(among(nb@, k as int, x));
                            }
                        }
                        if x == u {
                            assert(nb@[k as int] == x);
                        }
                        if among(nb@, k as int, x) {
                            let d = choose|d: int| 0 <= d < k && nb@[d] == x;
                            assert(nb@[d] == x);
                        }
                    }
                }
                k = k + 1;
            }
            proof {
                g.lemma_wf();
                assert forall|a: int, b: int|
                    0 <= a < n implies (#[trigger] new_graph@[a].contains(b) == ((a < v + 1 || b < v
                        + 1) && g@[a].contains(b))) by {
                    if a == v && g@[a].contains(b) {
                        assert(g.lists()[v as int].contains(b as usize));
                        let d = choose|d: int| 0 <= d < nb@.len() && nb@[d] == b as usize;
                        assert(among(nb@, nb@.len() as int, b));
                    }
                    if b == v && g@[a].contains(b) {
                        assert(g@[b].contains(a));
                        assert(g.lists()[v as int].contains(a as usize));
                        let d = choose|d: int| 0 <= d < nb@.len() && nb@[d] == a as usize;
                        assert(among(nb@, nb@.len() as int, a));
                    }
                }
            }
            v = v + 1;
        }
        proof {
            assert forall|a: int| 0 <= a < n implies #[trigger] new_graph@[a] =~= g@[a] by {}
            assert(new_graph@ =~= g@);
        }
        new_graph
    }
}

impl Graph {
    /// A copy of the graph.
    pub fn duplicate(&self) -> (r: Graph)
        requires
            self.wf(),
        ensures
            r.wf(),
            r@ == self@,
    {
        let mut adjency: Vec<BitSet> = Vec::new();
        let mut i: usize = 0;
        while i < self.adjency.len()
            invariant
                self.wf(),
                i <= self.adjency@.len(),
                adjency@.len() == i,
                forall|k: int| 0 <= k < i ==> (#[trigger] adjency@[k])@ == self.adjency@[k]@,
                forall|k: int| 0 <= k < i ==> #[trigger] shaped_for(adjency@[k], self.n as int),
            decreases self.adjency@.len() - i,
        {
            let b = self.adjency[i].duplicate();
            proof {
                assert(shaped_for(self.adjency@[i as int], self.n as int));
            }
            adjency.push(b);
            i = i + 1;
        }
        let r = Graph { n: self.n, m: self.m, adjency };
        assert(r@ =~= self@);
        r
    }
}

/// Whether `x` is among the first `k` entries of `nb`.
pub open spec fn among(nb: Seq<usize>, k: int, x: int) -> bool {
    exists|d: int| 0 <= d < k && nb[d] == x
}

} // verus!
