//! The width of elimination orders, and the treewidth as the best such width.
//!
//! Eliminating a vertex removes it and makes its neighbours pairwise adjacent; its cost is its
//! degree at that moment. The width of an elimination order is its largest cost, and the
//! treewidth of a graph is the smallest width over all elimination orders.

use vstd::prelude::*;
use crate::graph::model::{
    degree, elim_view, fill_degree_key, fill_in, first_argmin, degree_key, is_graph,
    lemma_degree_bound, lemma_elim_graph, lemma_first_argmin, lemma_lex_key, Nbrs,
};
use crate::graph::adjlist::lemma_fill_pairs_finite;

verus! {

/// The larger of two numbers.
pub open spec fn max_nat(a: nat, b: nat) -> nat {
    if a < b {
        b
    } else {
        a
    }
}

/// The treewidth of `g`: the smallest width of an elimination order.
pub open spec fn elim_width(g: Nbrs) -> nat
    decreases g.len(), 2nat, 0int,
{
    if g.len() == 0 {
        0
    } else {
        best_first(g, g.len() as int)
    }
}

/// The smallest width of an elimination order of `g` whose first vertex lies below `k`.
pub open spec fn best_first(g: Nbrs, k: int) -> nat
    decreases g.len(), 1nat, k,
{
    if k <= 1 {
        first_cost(g, 0)
    } else {
        let rest = best_first(g, k - 1);
        let here = first_cost(g, k - 1);
        if here < rest {
            here
        } else {
            rest
        }
    }
}

/// The smallest width of an elimination order of `g` that starts with `v`.
pub open spec fn first_cost(g: Nbrs, v: int) -> nat
    decreases g.len(), 0nat, 0int,
{
    if 0 <= v < g.len() {
        max_nat(degree(g, v), elim_width(elim_view(g, v)))
    } else {
        0
    }
}

/// The best order starting below `k` is no worse than starting with any `v < k`.
pub proof fn lemma_best_first_le(g: Nbrs, k: int, v: int)
    requires
        0 <= v < k,
    ensures
        best_first(g, k) <= first_cost(g, v),
    decreases k,
{
    if k > 1 && v < k - 1 {
        lemma_best_first_le(g, k - 1, v);
    }
}

/// Eliminating `v` first and then following a best order is an elimination order, so it is no
/// better than the best.
pub proof fn lemma_elim_step(g: Nbrs, v: int)
    requires
        0 <= v < g.len(),
    ensures
        elim_width(g) <= max_nat(degree(g, v), elim_width(elim_view(g, v))),
{
    lemma_best_first_le(g, g.len() as int, v);
}

/// A graph with at most one vertex has treewidth 0.
pub proof fn lemma_elim_width_small(g: Nbrs)
    requires
        is_graph(g),
        g.len() <= 1,
    ensures
        elim_width(g) == 0,
{
    if g.len() == 1 {
        assert(g[0] =~= Set::<int>::empty()) by {
            assert forall|j: int| !g[0].contains(j) by {
                if g[0].contains(j) {
                    assert(0 <= j < 1 && j != 0);
                }
            }
        }
        assert(elim_view(g, 0).len() == 0);
        assert(elim_width(elim_view(g, 0)) == 0);
        assert(degree(g, 0) == 0);
        assert(first_cost(g, 0) == 0);
        assert(best_first(g, 1) == 0);
    }
}

/// The heuristics that build an elimination order vertex by vertex.
#[derive(Debug, Clone, Copy, PartialEq, Eq, Structural)]
pub enum HeuristicAlgorithm {
    /// Eliminates a vertex with the fewest fill-in edges, ties broken by smaller degree.
    MinFill,
    /// Eliminates a vertex of minimum degree.
    MinDegree,
    /// Eliminates a vertex minimising degree plus fill-in.
    MinDegreePlusFill,
    /// Eliminates a vertex minimising fill-in minus degree.
    MinSparsestSubgraph,
    /// Eliminates a vertex with the fewest fill-in edges, ties broken by smaller degree.
    MinFillDegree,
    /// Eliminates a vertex of minimum degree, ties broken by fewer fill-in edges.
    MinDegreeFill,
}

/// Orders vertices by degree plus fill-in.
pub open spec fn degree_plus_fill_key(g: Nbrs) -> spec_fn(int) -> int {
    |v: int| (degree(g, v) + fill_in(g, v)) as int
}

/// Orders vertices by fill-in minus degree.
pub open spec fn sparsity_key(g: Nbrs) -> spec_fn(int) -> int {
    |v: int| fill_in(g, v) - degree(g, v)
}

/// Orders vertices by degree, then by fill-in.
pub open spec fn degree_fill_key(g: Nbrs) -> spec_fn(int) -> int {
    |v: int| (degree(g, v) * (g.len() * g.len() + 1) + fill_in(g, v)) as int
}

/// The vertex a heuristic eliminates next: the first vertex at which its key is smallest.
pub open spec fn heuristic_choice(g: Nbrs, alg: HeuristicAlgorithm) -> int {
    let key = match alg {
        HeuristicAlgorithm::MinFill => fill_degree_key(g),
        HeuristicAlgorithm::MinDegree => degree_key(g),
        HeuristicAlgorithm::MinDegreePlusFill => degree_plus_fill_key(g),
        HeuristicAlgorithm::MinSparsestSubgraph => sparsity_key(g),
        HeuristicAlgorithm::MinFillDegree => fill_degree_key(g),
        HeuristicAlgorithm::MinDegreeFill => degree_fill_key(g),
    };
    first_argmin(g.len() as int, key)
}

/// The width of the elimination order that heuristic `alg` builds on `g`.
pub open spec fn heuristic_width(g: Nbrs, alg: HeuristicAlgorithm) -> nat
    decreases g.len(),
{
    if g.len() == 0 {
        0
    } else {
        let v = heuristic_choice(g, alg);
        if 0 <= v < g.len() {
            max_nat(degree(g, v), heuristic_width(elim_view(g, v), alg))
        } else {
            0
        }
    }
}

/// The vertex a heuristic chooses is a vertex.
pub proof fn lemma_heuristic_choice(g: Nbrs, alg: HeuristicAlgorithm)
    requires
        g.len() >= 1,
    ensures
        0 <= heuristic_choice(g, alg) < g.len(),
{
    let key = match alg {
        HeuristicAlgorithm::MinFill => fill_degree_key(g),
        HeuristicAlgorithm::MinDegree => degree_key(g),
        HeuristicAlgorithm::MinDegreePlusFill => degree_plus_fill_key(g),
        HeuristicAlgorithm::MinSparsestSubgraph => sparsity_key(g),
        HeuristicAlgorithm::MinFillDegree => fill_degree_key(g),
        HeuristicAlgorithm::MinDegreeFill => degree_fill_key(g),
    };
    lemma_first_argmin(g.len() as int, key);
}

/// Whether `(a1, b1)` comes before `(a2, b2)` in lexicographic order.
pub open spec fn lex_less(a1: int, b1: int, a2: int, b2: int) -> bool {
    a1 < a2 || (a1 == a2 && b1 < b2)
}

/// The rule each heuristic eliminates by, stated on degrees and fill-ins: the vertex it picks
/// is a vertex of `g`, no vertex ranks strictly better, and every vertex before it ranks
/// strictly worse (ties go to the first vertex).
/// - min-degree: least degree;
/// - min-degree-plus-fill: least degree plus fill-in;
/// - min-sparsest-subgraph: least fill-in minus degree (a signed difference);
/// - min-fill and min-fill-degree: least fill-in, ties by least degree;
/// - min-degree-fill: least degree, ties by least fill-in.
pub proof fn lemma_heuristic_rules(g: Nbrs)
    requires
        is_graph(g),
        g.len() >= 1,
    ensures
        ({
            let v = heuristic_choice(g, HeuristicAlgorithm::MinDegree);
            &&& 0 <= v < g.len()
            &&& forall|u: int| 0 <= u < g.len() ==> degree(g, v) <= #[trigger] degree(g, u)
            &&& forall|u: int| 0 <= u < v ==> degree(g, v) < #[trigger] degree(g, u)
        }),
        ({
            let v = heuristic_choice(g, HeuristicAlgorithm::MinDegreePlusFill);
            &&& 0 <= v < g.len()
            &&& forall|u: int|
                0 <= u < g.len() ==> degree(g, v) + fill_in(g, v) <= #[trigger] degree(g, u) + fill_in(g, u)
            &&& forall|u: int|
                0 <= u < v ==> degree(g, v) + fill_in(g, v) < #[trigger] degree(g, u) + fill_in(g, u)
        }),
        ({
            let v = heuristic_choice(g, HeuristicAlgorithm::MinSparsestSubgraph);
            &&& 0 <= v < g.len()
            &&& forall|u: int|
                0 <= u < g.len() ==> fill_in(g, v) - degree(g, v) <= #[trigger] fill_in(g, u) - degree(g, u)
            &&& forall|u: int|
                0 <= u < v ==> fill_in(g, v) - degree(g, v) < #[trigger] fill_in(g, u) - degree(g, u)
        }),
        ({
            let v = heuristic_choice(g, HeuristicAlgorithm::MinFill);
            &&& 0 <= v < g.len()
            &&& forall|u: int|
                0 <= u < g.len() ==> !lex_less(
                    fill_in(g, u) as int,
                    degree(g, u) as int,
                    fill_in(g, v) as int,
                    degree(g, v) as int,
                )
            &&& forall|u: int|
                0 <= u < v ==> lex_less(
                    fill_in(g, v) as int,
                    degree(g, v) as int,
                    #[trigger] fill_in(g, u) as int,
                    degree(g, u) as int,
                )
        }),
        heuristic_choice(g, HeuristicAlgorithm::MinFillDegree) == heuristic_choice(g, HeuristicAlgorithm::MinFill),
        ({
            let v = heuristic_choice(g, HeuristicAlgorithm::MinDegreeFill);
            &&& 0 <= v < g.len()
            &&& forall|u: int|
                0 <= u < g.len() ==> !lex_less(
                    degree(g, u) as int,
                    fill_in(g, u) as int,
                    degree(g, v) as int,
                    fill_in(g, v) as int,
                )
            &&& forall|u: int|
                0 <= u < v ==> lex_less(
                    degree(g, v) as int,
                    fill_in(g, v) as int,
                    #[trigger] degree(g, u) as int,
                    fill_in(g, u) as int,
                )
        }),
{
    let n = g.len() as int;
    let kd = degree_key(g);
    let kdf = degree_plus_fill_key(g);
    let ks = sparsity_key(g);
    let kf = fill_degree_key(g);
    let kdl = degree_fill_key(g);
    lemma_first_argmin(n, kd);
    lemma_first_argmin(n, kdf);
    lemma_first_argmin(n, ks);
    lemma_first_argmin(n, kf);
    lemma_first_argmin(n, kdl);
    let v1 = first_argmin(n, kd);
    assert forall|u: int| 0 <= u < n implies degree(g, v1) <= #[trigger] degree(g, u) by {
        assert(kd(v1) <= kd(u));
    }
    assert forall|u: int| 0 <= u < v1 implies degree(g, v1) < #[trigger] degree(g, u) by {
        assert(kd(v1) < kd(u));
    }
    let v2 = first_argmin(n, kdf);
    assert forall|u: int| 0 <= u < n implies degree(g, v2) + fill_in(g, v2) <= #[trigger] degree(g, u) + fill_in(g, u) by {
        assert(kdf(v2) <= kdf(u));
    }
    assert forall|u: int| 0 <= u < v2 implies degree(g, v2) + fill_in(g, v2) < #[trigger] degree(g, u) + fill_in(g, u) by {
        assert(kdf(v2) < kdf(u));
    }
    let v3 = first_argmin(n, ks);
    assert forall|u: int| 0 <= u < n implies fill_in(g, v3) - degree(g, v3) <= #[trigger] fill_in(g, u) - degree(g, u) by {
        assert(ks(v3) <= ks(u));
    }
    assert forall|u: int| 0 <= u < v3 implies fill_in(g, v3) - degree(g, v3) < #[trigger] fill_in(g, u) - degree(g, u) by {
        assert(ks(v3) < ks(u));
    }
    let v4 = first_argmin(n, kf);
    lemma_degree_bound(g, v4);
    assert forall|u: int| 0 <= u < n implies !lex_less(
        fill_in(g, u) as int,
        degree(g, u) as int,
        fill_in(g, v4) as int,
        degree(g, v4) as int,
    ) by {
        assert(kf(v4) <= kf(u));
        lemma_degree_bound(g, u);
        lemma_lex_key(fill_in(g, u) as int, degree(g, u) as int, fill_in(g, v4) as int, degree(g, v4) as int, n);
    }
    assert forall|u: int| 0 <= u < v4 implies lex_less(
        fill_in(g, v4) as int,
        degree(g, v4) as int,
        #[trigger] fill_in(g, u) as int,
        degree(g, u) as int,
    ) by {
        assert(kf(v4) < kf(u));
        lemma_degree_bound(g, u);
        lemma_lex_key(fill_in(g, v4) as int, degree(g, v4) as int, fill_in(g, u) as int, degree(g, u) as int, n);
    }
    let v5 = first_argmin(n, kdl);
    lemma_fill_pairs_finite(g, v5);
    assert forall|u: int| 0 <= u < n implies !lex_less(
        degree(g, u) as int,
        fill_in(g, u) as int,
        degree(g, v5) as int,
        fill_in(g, v5) as int,
    ) by {
        assert(kdl(v5) <= kdl(u));
        lemma_fill_pairs_finite(g, u);
        lemma_lex_key(degree(g, u) as int, fill_in(g, u) as int, degree(g, v5) as int, fill_in(g, v5) as int, n * n);
    }
    assert forall|u: int| 0 <= u < v5 implies lex_less(
        degree(g, v5) as int,
        fill_in(g, v5) as int,
        #[trigger] degree(g, u) as int,
        fill_in(g, u) as int,
    ) by {
        assert(kdl(v5) < kdl(u));
        lemma_fill_pairs_finite(g, u);
        lemma_lex_key(degree(g, v5) as int, fill_in(g, v5) as int, degree(g, u) as int, fill_in(g, u) as int, n * n);
    }
}

/// Every heuristic gives an upper bound on the treewidth: the order it builds is an
/// elimination order, so its width is at least the best one.
pub proof fn lemma_heuristic_upper_bound(g: Nbrs, alg: HeuristicAlgorithm)
    requires
        is_graph(g),
    ensures
        elim_width(g) <= heuristic_width(g, alg),
    decreases g.len(),
{
    if g.len() > 0 {
        let v = heuristic_choice(g, alg);
        lemma_heuristic_choice(g, alg);
        lemma_elim_graph(g, v);
        lemma_heuristic_upper_bound(elim_view(g, v), alg);
        lemma_best_first_le(g, g.len() as int, v);
    }
}

} // verus!
