//! Heuristics that build an elimination order greedily, choosing at each step the vertex that
//! minimises a score such as its degree or its fill-in; the width of the order bounds the
//! treewidth from above.

use vstd::prelude::*;
use crate::graph::adjlist;
use crate::graph::model::{degree, elim_view, fill_in, first_argmin, lemma_elim_graph, lemma_fill_degree_bound, lemma_lex_key};
use crate::graph::Graph;
use crate::treewidth::width::{
    degree_fill_key, degree_plus_fill_key, heuristic_choice, heuristic_width,
    lemma_heuristic_choice, max_nat, sparsity_key,
};
pub use crate::treewidth::width::HeuristicAlgorithm;

verus! {

/// The first vertex minimising degree plus fill-in.
fn min_degree_plus_fill_vertex(g: &adjlist::Graph) -> (r: usize)
    requires
        g.wf(),
        g@.len() >= 1,
    ensures
        r == first_argmin(g@.len() as int, degree_plus_fill_key(g@)),
{
    let ghost key = degree_plus_fill_key(g@);
    proof {
        g.lemma_wf();
        lemma_fill_degree_bound(g@, 0);
    }
    let mut min = g.degree(0) + g.fill_in_count_vertex(0);
    let mut vertex_min: usize = 0;
    let mut v: usize = 1;
    while v < g.n()
        invariant
            g.wf(),
            key == degree_plus_fill_key(g@),
            1 <= v <= g@.len(),
            vertex_min == first_argmin(v as int, key),
            vertex_min < g@.len(),
            min == key(vertex_min as int),
        decreases g@.len() - v,
    {
        proof {
            g.lemma_wf();
            lemma_fill_degree_bound(g@, v as int);
        }
        let degree_plus_fill = g.degree(v) + g.fill_in_count_vertex(v);
        if degree_plus_fill < min {
            min = degree_plus_fill;
            vertex_min = v;
        }
        v = v + 1;
    }
    vertex_min
}

/// The first vertex minimising fill-in minus degree.
fn min_sparsity_vertex(g: &adjlist::Graph) -> (r: usize)
    requires
        g.wf(),
        g@.len() >= 1,
    ensures
        r == first_argmin(g@.len() as int, sparsity_key(g@)),
{
    let ghost key = sparsity_key(g@);
    let mut min: i128 = g.fill_in_count_vertex(0) as i128 - g.degree(0) as i128;
    let mut vertex_min: usize = 0;
    let mut v: usize = 1;
    while v < g.n()
        invariant
            g.wf(),
            key == sparsity_key(g@),
            1 <= v <= g@.len(),
            vertex_min == first_argmin(v as int, key),
            vertex_min < g@.len(),
            min == key(vertex_min as int),
        decreases g@.len() - v,
    {
        let sparsity: i128 = g.fill_in_count_vertex(v) as i128 - g.degree(v) as i128;
        if sparsity < min {
            min = sparsity;
            vertex_min = v;
        }
        v = v + 1;
    }
    vertex_min
}

/// The first vertex of minimum degree, ties broken by smaller fill-in.
fn min_degree_fill_vertex(g: &adjlist::Graph) -> (r: usize)
    requires
        g.wf(),
        g@.len() >= 1,
    ensures
        r == first_argmin(g@.len() as int, degree_fill_key(g@)),
{
    let ghost key = degree_fill_key(g@);
    let ghost n = g@.len() as int;
    proof {
        g.lemma_wf();
        lemma_fill_degree_bound(g@, 0);
    }
    let mut min_degree = g.degree(0);
    let mut min_fill = g.fill_in_count_vertex(0);
    let mut vertex_min: usize = 0;
    let mut v: usize = 1;
    while v < g.n()
        invariant
            g.wf(),
            n == g@.len(),
            key == degree_fill_key(g@),
            1 <= v <= n,
            vertex_min == first_argmin(v as int, key),
            vertex_min < n,
            min_degree == degree(g@, vertex_min as int),
            min_fill == fill_in(g@, vertex_min as int),
            min_fill <= n * n,
        decreases n - v,
    {
        proof {
            g.lemma_wf();
            lemma_fill_degree_bound(g@, v as int);
        }
        let d = g.degree(v);
        let f = g.fill_in_count_vertex(v);
        proof {
            lemma_lex_key(d as int, f as int, min_degree as int, min_fill as int, n * n);
        }
        if d < min_degree || (d == min_degree && f < min_fill) {
            min_degree = d;
            min_fill = f;
            vertex_min = v;
        }
        v = v + 1;
    }
    vertex_min
}

/// The vertex heuristic `alg` eliminates next.
fn select_vertex(g: &adjlist::Graph, alg: HeuristicAlgorithm) -> (r: usize)
    requires
        g.wf(),
        g@.len() >= 1,
    ensures
        r == heuristic_choice(g@, alg),
{
    match alg {
        HeuristicAlgorithm::MinFill => g.min_fill_in_count_vertex(),
        HeuristicAlgorithm::MinDegree => g.min_degree_vertex(),
        HeuristicAlgorithm::MinDegreePlusFill => min_degree_plus_fill_vertex(g),
        HeuristicAlgorithm::MinSparsestSubgraph => min_sparsity_vertex(g),
        HeuristicAlgorithm::MinFillDegree => g.min_fill_in_count_vertex(),
        HeuristicAlgorithm::MinDegreeFill => min_degree_fill_vertex(g),
    }
}

/// The width of the elimination order that heuristic `alg` builds: eliminates the chosen
/// vertex until none is left and returns the largest degree met.
fn min_heuristic(g: &adjlist::Graph, alg: HeuristicAlgorithm) -> (r: usize)
    requires
        g.wf(),
    ensures
        r == heuristic_width(g@, alg),
{
    let mut g = g.duplicate();
    let ghost target = heuristic_width(g@, alg);
    let mut max_degree: usize = 0;
    while !g.is_empty()
        invariant
            g.wf(),
            max_nat(max_degree as nat, heuristic_width(g@, alg)) == target,
        decreases g@.len(),
    {
        let ghost before = g@;
        let v = select_vertex(&g, alg);
        proof {
            lemma_heuristic_choice(before, alg);
            g.lemma_wf();
            lemma_elim_graph(before, v as int);
        }
        let d = g.degree(v);
        if d > max_degree {
            max_degree = d;
        }
        g.elim_vertex(v);
    }
    max_degree
}

/// The width of the min-fill heuristic.
pub fn min_fill(graph: &Graph) -> (r: usize)
    requires
        graph.wf(),
    ensures
        r == heuristic_width(graph@, HeuristicAlgorithm::MinFill),
{
    run_heuristic(graph, HeuristicAlgorithm::MinFill)
}

/// The width of the min-degree heuristic.
pub fn min_degree(graph: &Graph) -> (r: usize)
    requires
        graph.wf(),
    ensures
        r == heuristic_width(graph@, HeuristicAlgorithm::MinDegree),
{
    run_heuristic(graph, HeuristicAlgorithm::MinDegree)
}

/// The width of the minimum degree-plus-fill heuristic.
pub fn min_degree_plus_fill(graph: &Graph) -> (r: usize)
    requires
        graph.wf(),
    ensures
        r == heuristic_width(graph@, HeuristicAlgorithm::MinDegreePlusFill),
{
    run_heuristic(graph, HeuristicAlgorithm::MinDegreePlusFill)
}

/// The width of the minimum sparsest-subgraph heuristic.
pub fn min_sparsest_subgraph(graph: &Graph) -> (r: usize)
    requires
        graph.wf(),
    ensures
        r == heuristic_width(graph@, HeuristicAlgorithm::MinSparsestSubgraph),
{
    run_heuristic(graph, HeuristicAlgorithm::MinSparsestSubgraph)
}

/// The width of the min-fill heuristic with ties broken by degree.
pub fn min_fill_degree(graph: &Graph) -> (r: usize)
    requires
        graph.wf(),
    ensures
        r == heuristic_width(graph@, HeuristicAlgorithm::MinFillDegree),
{
    run_heuristic(graph, HeuristicAlgorithm::MinFillDegree)
}

/// The width of the min-degree heuristic with ties broken by fill-in.
pub fn min_degree_fill(graph: &Graph) -> (r: usize)
    requires
        graph.wf(),
    ensures
        r == heuristic_width(graph@, HeuristicAlgorithm::MinDegreeFill),
{
    run_heuristic(graph, HeuristicAlgorithm::MinDegreeFill)
}

/// The width of heuristic `alg` on a graph in either representation (a bitset graph is read
/// into adjacency lists first).
pub fn run_heuristic(graph: &Graph, alg: HeuristicAlgorithm) -> (r: usize)
    requires
        graph.wf(),
    ensures
        r == heuristic_width(graph@, alg),
{
    match graph {
        Graph::AdjList(g) => min_heuristic(g, alg),
        Graph::BitSet(g) => {
            let a = g.to_adjlist_graph();
            min_heuristic(&a, alg)
        },
    }
}

} // verus!
