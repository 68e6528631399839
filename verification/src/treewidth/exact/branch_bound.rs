//! Branch and bound over elimination orders.
//!
//! The search starts from the min-fill width as upper bound and the minor-min-width as lower
//! bound. A branch eliminates one vertex, eliminates the simplicial and almost simplicial
//! vertices that follow for free, and is pursued only while its bound stays below the best
//! width found. Several rules skip branches that lead to the same graphs as branches already
//! tried: a vertex adjacent to the one just eliminated, a pair eliminated in the other order
//! by a sibling, a vertex whose neighbourhood an ancestor already tried, an elimination that
//! adds a superset of the edges of a sibling's, and a simplicial vertex a sibling already met.

use vstd::prelude::*;
use crate::graph::adjlist;
use crate::graph::model::{contract_view, degree, elim_view, is_graph, min_degree_choice, remove_vertex_view, Nbrs};
use crate::graph::Graph;
use crate::treewidth::heuristic::min_fill;
use crate::treewidth::width::{
    elim_width, heuristic_width, lemma_elim_step, lemma_elim_width_small, lemma_heuristic_upper_bound,
    max_nat, HeuristicAlgorithm,
};

verus! {

/// Whether `x` occurs in `v`.
fn contains_vertex(v: &Vec<usize>, x: usize) -> (r: bool)
    ensures
        r == v@.contains(x),
{
    let mut k: usize = 0;
    while k < v.len()
        invariant
            k <= v@.len(),
            forall|j: int| 0 <= j < k ==> v@[j] != x,
        decreases v@.len() - k,
    {
        if v[k] == x {
            return true;
        }
        k = k + 1;
    }
    false
}

/// Whether the pair `p` occurs in `v`.
fn contains_pair(v: &Vec<(usize, usize)>, p: (usize, usize)) -> (r: bool)
    ensures
        r == v@.contains(p),
{
    let mut k: usize = 0;
    while k < v.len()
        invariant
            k <= v@.len(),
            forall|j: int| 0 <= j < k ==> v@[j] != p,
        decreases v@.len() - k,
    {
        if v[k].0 == p.0 && v[k].1 == p.1 {
            return true;
        }
        k = k + 1;
    }
    false
}

/// Whether every pair of `a` occurs in `b`.
fn pairs_subset(a: &Vec<(usize, usize)>, b: &Vec<(usize, usize)>) -> (r: bool)
    ensures
        r == forall|j: int| 0 <= j < a@.len() ==> b@.contains(#[trigger] a@[j]),
{
    let mut k: usize = 0;
    while k < a.len()
        invariant
            k <= a@.len(),
            forall|j: int| 0 <= j < k ==> b@.contains(#[trigger] a@[j]),
        decreases a@.len() - k,
    {
        if !contains_pair(b, a[k]) {
            return false;
        }
        k = k + 1;
    }
    true
}

/// Whether two lists without repeated entries hold the same elements.
fn same_elements(a: &Vec<usize>, b: &Vec<usize>) -> (r: bool)
    ensures
        r == (a@.len() == b@.len() && forall|j: int| 0 <= j < a@.len() ==> b@.contains(#[trigger] a@[j])),
{
    if a.len() != b.len() {
        return false;
    }
    let mut k: usize = 0;
    while k < a.len()
        invariant
            k <= a@.len(),
            a@.len() == b@.len(),
            forall|j: int| 0 <= j < k ==> b@.contains(#[trigger] a@[j]),
        decreases a@.len() - k,
    {
        if !contains_vertex(b, a[k]) {
            return false;
        }
        k = k + 1;
    }
    true
}

/// Whether the minor-min-width bound, run on `g` with the bound so far `lb`, can end with `r`:
/// while vertices remain, take the first vertex of minimum degree; remove it when it is
/// isolated, otherwise raise the bound to its degree and contract it into one of its neighbours
/// of minimum degree (which one, when several tie, the order of the adjacency lists decides).
pub open spec fn minor_min_run(g: Nbrs, lb: int, r: int) -> bool
    decreases g.len(),
{
    if g.len() == 0 {
        r == lb
    } else {
        let v = min_degree_choice(g);
        let d = degree(g, v) as int;
        if d == 0 {
            minor_min_run(remove_vertex_view(g, v), lb, r)
        } else {
            exists|u: int|
                #[trigger] g[v].contains(u) && (forall|w: int| g[v].contains(w) ==> degree(g, u) <= degree(g, w))
                    && minor_min_run(
                    contract_view(g, v, u),
                    if d > lb {
                        d
                    } else {
                        lb
                    },
                    r,
                )
        }
    }
}

/// The minor-min-width lower bound: repeatedly contracts a vertex of minimum degree into its
/// neighbour of minimum degree (removing isolated vertices), and returns the largest minimum
/// degree met.
fn minor_min_width(g: &adjlist::Graph) -> (r: usize)
    requires
        g.wf(),
    ensures
        r == 0 || r < g@.len(),
        minor_min_run(g@, 0, r as int),
{
    let mut lb: usize = 0;
    let mut h = g.duplicate();
    let ghost n0 = g@.len();
    loop
        invariant
            h.wf(),
            n0 == g@.len(),
            h@.len() <= n0,
            lb == 0 || lb < n0,
            forall|r: int| #[trigger] minor_min_run(h@, lb as int, r) ==> minor_min_run(g@, 0, r),
        decreases h@.len(),
    {
        if h.n() == 0 {
            assert(minor_min_run(h@, lb as int, lb as int));
            return lb;
        }
        let ghost h0 = h@;
        let ghost lb0 = lb;
        let min_deg_vertex = h.min_degree_vertex();
        proof {
            crate::graph::model::lemma_first_argmin(h@.len() as int, crate::graph::model::degree_key(h@));
            h.lemma_wf();
            crate::graph::model::lemma_degree_bound(h@, min_deg_vertex as int);
        }
        let d = h.degree(min_deg_vertex);
        if d == 0 {
            h.remove_vertex(min_deg_vertex);
            proof {
                assert forall|r: int| #[trigger] minor_min_run(h@, lb as int, r) implies minor_min_run(g@, 0, r) by {
                    assert(minor_min_run(h0, lb0 as int, r));
                }
            }
            continue;
        }
        let min_deg_neighbor = h.min_degree_neighbor(min_deg_vertex);
        proof {
            let l = h.lists()[min_deg_vertex as int];
            h.lemma_list_set(min_deg_vertex as int);
            crate::graph::model::lemma_first_argmin(l.len() as int, adjlist::nbr_degree_key(h@, l));
            assert forall|w: int| h0[min_deg_vertex as int].contains(w) implies degree(h0, min_deg_neighbor as int)
                <= degree(h0, w) by {
                let k = choose|k: int| 0 <= k < l.len() && l[k] == w;
                assert(adjlist::nbr_degree_key(h@, l)(k) == degree(h0, w) as int);
            }
        }
        if d > lb {
            lb = d;
        }
        proof {
            h.lemma_wf();
        }
        h.contract_edge(min_deg_vertex, min_deg_neighbor);
        proof {
            assert forall|r: int| #[trigger] minor_min_run(h@, lb as int, r) implies minor_min_run(g@, 0, r) by {
                assert(h0[min_deg_vertex as int].contains(min_deg_neighbor as int));
                assert(minor_min_run(h0, lb0 as int, r));
            }
        }
    }
}

/// Whether the neighbours of `v` are pairwise adjacent.
pub open spec fn nbrs_clique(g: Nbrs, v: int) -> bool {
    forall|a: int, b: int|
        #![trigger g[v].contains(a), g[v].contains(b)]
        g[v].contains(a) && g[v].contains(b) && a != b ==> g[a].contains(b)
}

/// Whether every two non-adjacent neighbours of `v` include `w`.
pub open spec fn nonadjacent_through(g: Nbrs, v: int, w: int) -> bool {
    forall|a: int, b: int|
        #![trigger g[v].contains(a), g[v].contains(b)]
        g[v].contains(a) && g[v].contains(b) && a != b && !g[a].contains(b) ==> a == w || b == w
}

/// Whether the neighbours listed at positions `p < q` of `nb` are not adjacent.
pub open spec fn apart_at(g: Nbrs, nb: Seq<usize>, p: int, q: int) -> bool {
    0 <= p < q < nb.len() && !g[nb[p] as int].contains(nb[q] as int)
}

/// Whether the position pair `(p1, q1)` comes before `(p2, q2)` in lexicographic order.
pub open spec fn pair_before(p1: int, q1: int, p2: int, q2: int) -> bool {
    p1 < p2 || (p1 == p2 && q1 < q2)
}

/// Whether, scanning the pairs of positions of `nb` in lexicographic order, the second
/// non-adjacent pair and a later one start at the same position.
pub open spec fn second_row_repeats(g: Nbrs, nb: Seq<usize>) -> bool {
    exists|p1: int, q1: int, p2: int, q2: int, q3: int|
        #![trigger apart_at(g, nb, p1, q1), apart_at(g, nb, p2, q2), apart_at(g, nb, p2, q3)]
        apart_at(g, nb, p1, q1) && apart_at(g, nb, p2, q2) && apart_at(g, nb, p2, q3) && pair_before(p1, q1, p2, q2)
            && q2 < q3 && forall|p: int, q: int|
            #![trigger apart_at(g, nb, p, q)]
            apart_at(g, nb, p, q) && pair_before(p, q, p2, q2) ==> p == p1 && q == q1
}

/// What the scan over the neighbours `nb` of `v` (in list order) decides: `v` is simplicial,
/// or almost simplicial with degree at most `lb`, except when the second non-adjacent pair it
/// meets and a later one start at the same neighbour.
pub open spec fn simplicial_scan(g: Nbrs, nb: Seq<usize>, v: int, lb: int) -> bool {
    nbrs_clique(g, v) || (degree(g, v) <= lb && (exists|w: int| #[trigger] nonadjacent_through(g, v, w))
        && !second_row_repeats(g, nb))
}

/// Whether the scan's state accounts for the non-adjacent pair at positions `(p, q)`: it is the
/// first such pair, or, once a vertex is excluded, it contains that vertex.
spec fn pair_covered(nb: Seq<usize>, potential: Option<(usize, usize)>, excluded: Option<usize>, first: (int, int), p: int, q: int) -> bool {
    match excluded {
        Some(w) => nb[p] == w || nb[q] == w,
        None => potential is Some && p == first.0 && q == first.1,
    }
}

/// The scan's state: the first non-adjacent pair found sits at positions `first`; a vertex is
/// excluded only when the second pair, at `second`, shares it with the first.
spec fn scan_state(
    g: Nbrs,
    nb: Seq<usize>,
    deg: int,
    lb: int,
    potential: Option<(usize, usize)>,
    excluded: Option<usize>,
    first: (int, int),
    second: (int, int),
) -> bool {
    &&& excluded is Some ==> potential is Some
    &&& potential matches Some((x, y)) ==> deg <= lb && apart_at(g, nb, first.0, first.1) && nb[first.0] == x
        && nb[first.1] == y
    &&& excluded matches Some(w) ==> apart_at(g, nb, second.0, second.1) && pair_before(
        first.0,
        first.1,
        second.0,
        second.1,
    ) && (nb[second.0] == w || nb[second.1] == w) && (nb[first.0] == w || nb[first.1] == w)
    &&& excluded is Some ==> forall|p: int, q: int|
        #![trigger apart_at(g, nb, p, q)]
        apart_at(g, nb, p, q) && pair_before(p, q, second.0, second.1) ==> p == first.0 && q == first.1
}

/// Whether `v` is simplicial (its neighbours are pairwise adjacent), or almost simplicial (all
/// its neighbours but one are) with degree at most `lower_bound`. The neighbours are scanned in
/// pairs in list order; the scan also answers `false` when the second non-adjacent pair it meets
/// and a later one start at the same neighbour.
#[verifier::spinoff_prover]
fn is_simplicial_or_almost_simplicial(g: &adjlist::Graph, v: usize, lower_bound: usize) -> (r: bool)
    requires
        g.wf(),
        v < g@.len(),
    ensures
        r == simplicial_scan(g@, g.lists()[v as int], v as int, lower_bound as int),
{
    proof {
        g.lemma_wf();
        g.lemma_list_set(v as int);
    }
    let neighbors = g.neighbors_ref(v).unwrap();
    let num_neighbors = neighbors.len();
    let deg = g.degree(v);
    let ghost gg = g@;
    let ghost nb = neighbors@;
    let ghost lb = lower_bound as int;
    proof {
        assert(nb.no_duplicates());
        assert forall|k: int| 0 <= k < nb.len() implies gg[v as int].contains(#[trigger] nb[k] as int) by {}
    }
    let mut potential: Option<(usize, usize)> = None;
    let mut excluded: Option<usize> = None;
    let ghost mut first: (int, int) = (0, 0);
    let ghost mut second: (int, int) = (0, 0);
    let mut i: usize = 0;
    while i < num_neighbors
        invariant
            g.wf(),
            gg == g@,
            lb == lower_bound as int,
            is_graph(gg),
            v < gg.len(),
            nb == neighbors@,
            nb == g.lists()[v as int],
            nb.no_duplicates(),
            forall|k: int| 0 <= k < nb.len() ==> gg[v as int].contains(#[trigger] nb[k] as int),
            num_neighbors == nb.len(),
            deg == gg[v as int].len(),
            i <= num_neighbors,
            scan_state(gg, nb, deg as int, lb, potential, excluded, first, second),
            potential is Some ==> first.0 < i,
            excluded is Some ==> second.0 < i,
            forall|p: int, q: int|
                #![trigger apart_at(gg, nb, p, q)]
                p < i && apart_at(gg, nb, p, q) ==> pair_covered(nb, potential, excluded, first, p, q),
            excluded is Some ==> forall|q: int|
                #![trigger apart_at(gg, nb, second.0, q)]
                second.1 < q && second.0 < i ==> !apart_at(gg, nb, second.0, q),
        decreases num_neighbors - i,
    {
        let a = neighbors[i];
        let skip_a = match excluded {
            Some(x) => a == x,
            None => false,
        };
        if !skip_a {
            let mut j: usize = i + 1;
            while j < num_neighbors
                invariant
                    g.wf(),
                    gg == g@,
                    lb == lower_bound as int,
                    is_graph(gg),
                    v < gg.len(),
                    nb == neighbors@,
                    nb == g.lists()[v as int],
                    nb.no_duplicates(),
                    forall|k: int| 0 <= k < nb.len() ==> gg[v as int].contains(#[trigger] nb[k] as int),
                    num_neighbors == nb.len(),
                    deg == gg[v as int].len(),
                    i < j <= num_neighbors,
                    a == nb[i as int],
                    excluded matches Some(x) && a == x ==> second.0 == i,
                    scan_state(gg, nb, deg as int, lb, potential, excluded, first, second),
                    potential is Some ==> pair_before(first.0, first.1, i as int, j as int),
                    excluded is Some ==> pair_before(second.0, second.1, i as int, j as int),
                    forall|p: int, q: int|
                        #![trigger apart_at(gg, nb, p, q)]
                        pair_before(p, q, i as int, j as int) && apart_at(gg, nb, p, q) ==> pair_covered(
                            nb,
                            potential,
                            excluded,
                            first,
                            p,
                            q,
                        ),
                    excluded is Some ==> forall|q: int|
                        #![trigger apart_at(gg, nb, second.0, q)]
                        second.1 < q && pair_before(second.0, q, i as int, j as int) ==> !apart_at(
                            gg,
                            nb,
                            second.0,
                            q,
                        ),
                decreases num_neighbors - j,
            {
                let b = neighbors[j];
                let skip_b = match excluded {
                    Some(x) => b == x,
                    None => false,
                };
                let adjacent = g.has_edge(a, b);
                proof {
                    assert(apart_at(gg, nb, i as int, j as int) == !adjacent);
                    assert(nb[i as int] != nb[j as int]);
                }
                if !skip_b && !adjacent {
                    proof {
                        assert(gg[v as int].contains(nb[i as int] as int));
                        assert(gg[v as int].contains(nb[j as int] as int));
                        assert(!nbrs_clique(gg, v as int));
                    }
                    if excluded.is_some() {
                        proof {
                            let w = excluded->0;
                            if a == w {
                                assert(apart_at(gg, nb, first.0, first.1));
                                assert(apart_at(gg, nb, second.0, second.1));
                                assert(apart_at(gg, nb, second.0, j as int));
                                assert(second.1 < j);
                                assert(forall|p: int, q: int|
                                    #![trigger apart_at(gg, nb, p, q)]
                                    apart_at(gg, nb, p, q) && pair_before(p, q, second.0, second.1) ==> p == first.0 && q == first.1);
                                assert(second_row_repeats(gg, nb));
                                assert(!simplicial_scan(gg, nb, v as int, lb));
                            } else {
                                let fa = nb[first.0] as int;
                                let fb = nb[first.1] as int;
                                let sa = nb[second.0] as int;
                                let sb = nb[second.1] as int;
                                assert(gg[v as int].contains(fa) && gg[v as int].contains(fb));
                                assert(gg[v as int].contains(sa) && gg[v as int].contains(sb));
                                assert(fa != fb && sa != sb);
                                assert forall|w2: int| !nonadjacent_through(gg, v as int, w2) by {
                                    if nonadjacent_through(gg, v as int, w2) {
                                        assert(w2 == a || w2 == b);
                                        assert(w2 == fa || w2 == fb);
                                        assert(w2 == sa || w2 == sb);
                                        assert(w2 != w);
                                        if first.0 != second.0 {
                                            assert(nb[first.0] != nb[second.0]);
                                        }
                                        if first.1 != second.1 {
                                            assert(nb[first.1] != nb[second.1]);
                                        }
                                        if first.0 != second.1 {
                                            assert(nb[first.0] != nb[second.1]);
                                        }
                                        if first.1 != second.0 {
                                            assert(nb[first.1] != nb[second.0]);
                                        }
                                    }
                                }
                                assert(!simplicial_scan(gg, nb, v as int, lb));
                            }
                        }
                        return false;
                    }
                    if deg > lower_bound {
                        return false;
                    }
                    match potential {
                        Some((x, y)) => {
                            proof {
                                assert forall|p: int, q: int|
                                    #![trigger apart_at(gg, nb, p, q)]
                                    apart_at(gg, nb, p, q) && pair_before(p, q, i as int, j as int) implies p == first.0
                                        && q == first.1 by {
                                    assert(pair_covered(nb, potential, excluded, first, p, q));
                                }
                                assert(x == nb[first.0] && y == nb[first.1]);
                            }
                            if a == x || a == y {
                                excluded = Some(a);
                                proof {
                                    second = (i as int, j as int);
                                    assert(excluded is Some ==> potential is Some);
                                    assert(apart_at(gg, nb, second.0, second.1));
                                    assert(pair_before(first.0, first.1, second.0, second.1));
                                    assert(nb[second.0] == a);
                                    assert(nb[first.0] == a || nb[first.1] == a);
                                    assert(scan_state(gg, nb, deg as int, lb, potential, excluded, first, second));
                                }
                            } else if b == x || b == y {
                                excluded = Some(b);
                                proof {
                                    second = (i as int, j as int);
                                    assert(apart_at(gg, nb, second.0, second.1));
                                    assert(nb[second.1] == b);
                                    assert(nb[first.0] == b || nb[first.1] == b);
                                    assert(scan_state(gg, nb, deg as int, lb, potential, excluded, first, second));
                                }
                            } else {
                                proof {
                                    let fa = nb[first.0] as int;
                                    let fb = nb[first.1] as int;
                                    assert(gg[v as int].contains(fa) && gg[v as int].contains(fb));
                                    assert(fa != fb);
                                    assert forall|w2: int| !nonadjacent_through(gg, v as int, w2) by {
                                        if nonadjacent_through(gg, v as int, w2) {
                                            assert(w2 == a || w2 == b);
                                            assert(w2 == fa || w2 == fb);
                                        }
                                    }
                                }
                                return false;
                            }
                        },
                        None => {
                            potential = Some((a, b));
                            proof {
                                first = (i as int, j as int);
                                assert(apart_at(gg, nb, first.0, first.1));
                                assert(excluded is None);
                                assert(deg as int <= lb);
                                assert(nb[first.0] == a && nb[first.1] == b);
                            }
                        },
                    }
                }
                proof {
                    if skip_b && excluded is Some && i == second.0 && second.1 < j {
                        let w = excluded->0;
                        assert(nb[j as int] == w);
                        if nb[second.0] == w {
                            assert(nb[i as int] == w);
                        } else {
                            assert(nb[second.1] == nb[j as int]);
                        }
                    }
                }
                j = j + 1;
            }
        } else {
            proof {
                assert forall|q: int| #![trigger apart_at(gg, nb, i as int, q)] apart_at(gg, nb, i as int, q) implies pair_covered(nb, potential, excluded, first, i as int, q) by {}
                if excluded is Some && i == second.0 {
                    assert(false);
                }
            }
        }
        i = i + 1;
    }
    proof {
        assert forall|a: int, b: int|
            #![trigger gg[v as int].contains(a), gg[v as int].contains(b)]
            gg[v as int].contains(a) && gg[v as int].contains(b) && a != b && !gg[a].contains(b)
                implies exists|p: int, q: int| #![trigger apart_at(gg, nb, p, q)] apart_at(gg, nb, p, q) && ((nb[p] == a && nb[q] == b) || (nb[p] == b && nb[q] == a)) by {
            let p = choose|p: int| 0 <= p < num_neighbors && nb[p] == a;
            let q = choose|q: int| 0 <= q < num_neighbors && nb[q] == b;
            assert(p != q);
            if p < q {
                assert(apart_at(gg, nb, p, q));
            } else {
                assert(!gg[b].contains(a));
                assert(apart_at(gg, nb, q, p));
            }
        }
        assert(!second_row_repeats(gg, nb)) by {
            if second_row_repeats(gg, nb) {
                let (p1, q1, p2, q2, q3) = choose|p1: int, q1: int, p2: int, q2: int, q3: int|
                    #![trigger apart_at(gg, nb, p1, q1), apart_at(gg, nb, p2, q2), apart_at(gg, nb, p2, q3)]
                    apart_at(gg, nb, p1, q1) && apart_at(gg, nb, p2, q2) && apart_at(gg, nb, p2, q3) && pair_before(p1, q1, p2, q2)
                        && q2 < q3 && forall|p: int, q: int|
                        #![trigger apart_at(gg, nb, p, q)]
                        apart_at(gg, nb, p, q) && pair_before(p, q, p2, q2) ==> p == p1 && q == q1;
                assert(pair_covered(nb, potential, excluded, first, p1, q1));
                assert(pair_covered(nb, potential, excluded, first, p2, q2));
                assert(pair_covered(nb, potential, excluded, first, p2, q3));
                if excluded is Some {
                    assert(apart_at(gg, nb, first.0, first.1));
                    assert(apart_at(gg, nb, second.0, second.1));
                    if pair_before(p2, q2, second.0, second.1) {
                        assert(p2 == first.0 && q2 == first.1);
                        assert(p1 == first.0 && q1 == first.1);
                    } else if p2 == second.0 && q2 == second.1 {
                        let w = excluded->0;
                        assert(!apart_at(gg, nb, second.0, q3));
                    } else {
                        assert(first.0 == p1 && first.1 == q1);
                        assert(second.0 == p1 && second.1 == q1);
                    }
                }
            }
        }
        match excluded {
            Some(w) => {
                assert(nonadjacent_through(gg, v as int, w as int));
            },
            None => {
                match potential {
                    Some((x, y)) => {
                        assert(nonadjacent_through(gg, v as int, x as int));
                    },
                    None => {
                        assert(nbrs_clique(gg, v as int));
                    },
                }
            },
        }
    }
    true
}

/// The first vertex that the scan finds simplicial, or almost simplicial with degree at most
/// `lower_bound`.
fn find_simplicial_vertex(g: &adjlist::Graph, lower_bound: usize) -> (r: Option<usize>)
    requires
        g.wf(),
    ensures
        r matches Some(v) ==> v < g@.len() && simplicial_scan(g@, g.lists()[v as int], v as int, lower_bound as int),
        forall|u: int|
            0 <= u < g@.len() && (r matches Some(v) ==> u < v) ==> !#[trigger] simplicial_scan(
                g@,
                g.lists()[u],
                u,
                lower_bound as int,
            ),
{
    let mut v: usize = 0;
    while v < g.n()
        invariant
            g.wf(),
            v <= g@.len(),
            forall|u: int| 0 <= u < v ==> !#[trigger] simplicial_scan(g@, g.lists()[u], u, lower_bound as int),
        decreases g@.len() - v,
    {
        if is_simplicial_or_almost_simplicial(g, v, lower_bound) {
            return Some(v);
        }
        v = v + 1;
    }
    None
}

/// The vertices that the scan finds simplicial, or almost simplicial with degree at most
/// `lower_bound`, in increasing order.
fn find_all_simplicial_vertices(g: &adjlist::Graph, lower_bound: usize) -> (r: Vec<usize>)
    requires
        g.wf(),
    ensures
        forall|k: int| 0 <= k < r@.len() ==> #[trigger] r@[k] < g@.len(),
        forall|a: int, b: int| 0 <= a < b < r@.len() ==> r@[a] < r@[b],
        forall|k: int|
            0 <= k < r@.len() ==> simplicial_scan(g@, g.lists()[r@[k] as int], r@[k] as int, lower_bound as int),
        forall|u: int|
            0 <= u < g@.len() && #[trigger] simplicial_scan(g@, g.lists()[u], u, lower_bound as int) ==> r@.contains(
                u as usize,
            ),
{
    let mut simplicial_vertices: Vec<usize> = Vec::new();
    let mut v: usize = 0;
    while v < g.n()
        invariant
            g.wf(),
            v <= g@.len(),
            forall|k: int| 0 <= k < simplicial_vertices@.len() ==> #[trigger] simplicial_vertices@[k] < v,
            forall|a: int, b: int|
                0 <= a < b < simplicial_vertices@.len() ==> simplicial_vertices@[a] < simplicial_vertices@[b],
            forall|k: int|
                0 <= k < simplicial_vertices@.len() ==> simplicial_scan(
                    g@,
                    g.lists()[simplicial_vertices@[k] as int],
                    simplicial_vertices@[k] as int,
                    lower_bound as int,
                ),
            forall|u: int|
                0 <= u < v && #[trigger] simplicial_scan(g@, g.lists()[u], u, lower_bound as int)
                    ==> simplicial_vertices@.contains(u as usize),
        decreases g@.len() - v,
    {
        let ghost before = simplicial_vertices@;
        if is_simplicial_or_almost_simplicial(g, v, lower_bound) {
            simplicial_vertices.push(v);
            proof {
                assert(simplicial_vertices@[simplicial_vertices@.len() - 1] == v);
            }
        }
        proof {
            assert forall|u: int|
                0 <= u < v + 1 && #[trigger] simplicial_scan(g@, g.lists()[u], u, lower_bound as int)
                    implies simplicial_vertices@.contains(u as usize) by {
                if u < v {
                    let k = choose|k: int| 0 <= k < before.len() && before[k] == u as usize;
                    assert(simplicial_vertices@[k] == u as usize);
                } else {
                    assert(simplicial_vertices@[simplicial_vertices@.len() - 1] == v);
                }
            }
        }
        v = v + 1;
    }
    simplicial_vertices
}

/// Eliminates simplicial and almost simplicial vertices while there are any, raising the width
/// `g` of the order so far to their degrees and the bound `f` to `g`.
fn reduce_graph(graph: &mut adjlist::Graph, lower_bound: usize, g: usize, f: usize) -> (r: (usize, usize))
    requires
        old(graph).wf(),
        g <= f,
    ensures
        final(graph).wf(),
        final(graph)@.len() <= old(graph)@.len(),
        g <= r.0 <= r.1,
        f <= r.1,
        max_nat(g as nat, elim_width(old(graph)@)) <= max_nat(r.0 as nat, elim_width(final(graph)@)),
{
    let mut gw = g;
    let mut fw = f;
    let ghost start = graph@;
    loop
        invariant
            graph.wf(),
            start == old(graph)@,
            graph@.len() <= start.len(),
            g <= gw <= fw,
            f <= fw,
            max_nat(g as nat, elim_width(start)) <= max_nat(gw as nat, elim_width(graph@)),
        decreases graph@.len(),
    {
        match find_simplicial_vertex(graph, lower_bound) {
            Some(v) => {
                let d = graph.degree(v);
                proof {
                    lemma_elim_step(graph@, v as int);
                }
                if d > gw {
                    gw = d;
                }
                if gw > fw {
                    fw = gw;
                }
                proof {
                    graph.lemma_wf();
                    crate::graph::model::lemma_elim_graph(graph@, v as int);
                }
                graph.elim_vertex(v);
            },
            None => {
                return (gw, fw);
            },
        }
    }
}

/// The stacks of neighbour lists, each as the sequence of lists it holds.
pub open spec fn stack_views(a: Seq<Vec<Vec<usize>>>) -> Seq<Seq<Vec<usize>>> {
    a.map_values(|s: Vec<Vec<usize>>| s@)
}

/// Whether the stack `cur` is `before` with one list pushed (when `pushed`), or `before` itself.
pub open spec fn stack_after(before: Seq<Vec<usize>>, pushed: bool, cur: Seq<Vec<usize>>) -> bool {
    if pushed {
        cur.len() == before.len() + 1 && cur.drop_last() == before
    } else {
        cur == before
    }
}

/// Searches the elimination orders of `graph` that can still beat `upper_bound`, `g` being the
/// width of the order that led to `graph` and `f` a lower bound on what the branch can give.
/// Returns the best width found, or `upper_bound` when no branch beats it.
fn branch_bound_sub(
    graph: &adjlist::Graph,
    g: usize,
    f: usize,
    upper_bound: usize,
    last_vertex: Option<usize>,
    last_vertex_neighbors: Option<&Vec<usize>>,
    previous_child_eliminated: &mut Vec<(usize, usize)>,
    ancestor_child_eliminated_neighbors: &mut Vec<Vec<Vec<usize>>>,
) -> (r: usize)
    requires
        graph.wf(),
        g <= f,
        old(ancestor_child_eliminated_neighbors)@.len() >= graph@.len(),
    ensures
        r <= upper_bound,
        r == upper_bound || max_nat(g as nat, elim_width(graph@)) <= r,
        graph@.len() < 2 ==> r == (if upper_bound < f {
            upper_bound
        } else {
            f
        }),
        final(ancestor_child_eliminated_neighbors)@.len() == old(ancestor_child_eliminated_neighbors)@.len(),
        stack_views(final(ancestor_child_eliminated_neighbors)@) == stack_views(old(ancestor_child_eliminated_neighbors)@),
    decreases graph@.len(),
{
    proof {
        graph.lemma_wf();
    }
    if graph.n() < 2 {
        proof {
            lemma_elim_width_small(graph@);
        }
        return if upper_bound < f {
            upper_bound
        } else {
            f
        };
    }
    let mut upper_bound = upper_bound;
    let ghost ub0 = upper_bound;
    let mut new_previous_child_eliminated: Vec<(usize, usize)> = Vec::new();
    let mut vertex_elim_added_edges: Vec<Vec<(usize, usize)>> = Vec::new();
    let mut vertex_elim_simplicial_vertices: Vec<(usize, usize)> = Vec::new();
    let mut child_eliminated: Vec<usize> = Vec::new();
    let n = graph.n();
    let mut v: usize = 0;
    while v < n
        invariant
            graph.wf(),
            n == graph@.len(),
            n >= 2,
            g <= f,
            v <= n,
            upper_bound <= ub0,
            upper_bound == ub0 || max_nat(g as nat, elim_width(graph@)) <= upper_bound,
            ancestor_child_eliminated_neighbors@.len() == old(ancestor_child_eliminated_neighbors)@.len(),
            ancestor_child_eliminated_neighbors@.len() >= n,
            forall|k: int| 0 <= k < child_eliminated@.len() ==> #[trigger] child_eliminated@[k] < v,
            forall|a: int, b: int| 0 <= a < b < child_eliminated@.len() ==> child_eliminated@[a] < child_eliminated@[b],
            forall|x: int|
                0 <= x < old(ancestor_child_eliminated_neighbors)@.len() ==> stack_after(
                    stack_views(old(ancestor_child_eliminated_neighbors)@)[x],
                    child_eliminated@.contains(x as usize),
                    #[trigger] stack_views(ancestor_child_eliminated_neighbors@)[x],
                ),
        decreases n - v,
    {
        let skip_neighbor = match last_vertex_neighbors {
            Some(neighbors) => contains_vertex(neighbors, v),
            None => false,
        };
        if skip_neighbor {
            v = v + 1;
            continue;
        }
        let skip_pair = match last_vertex {
            Some(lv) => contains_pair(previous_child_eliminated, (v, lv)),
            None => false,
        };
        if skip_pair {
            v = v + 1;
            continue;
        }
        proof {
            graph.lemma_wf();
        }
        let neighbors = graph.neighbors_ref(v).unwrap();
        let neighbors_set = neighbors.clone();
        let mut seen = false;
        let mut k: usize = 0;
        while k < ancestor_child_eliminated_neighbors[v].len()
            invariant
                v < n,
                ancestor_child_eliminated_neighbors@.len() >= n,
                k <= ancestor_child_eliminated_neighbors@[v as int]@.len(),
            decreases ancestor_child_eliminated_neighbors@[v as int]@.len() - k,
        {
            if same_elements(&ancestor_child_eliminated_neighbors[v][k], &neighbors_set) {
                seen = true;
            }
            k = k + 1;
        }
        if seen {
            v = v + 1;
            continue;
        }
        let ghost anc_before = ancestor_child_eliminated_neighbors@;
        let ghost ce_before = child_eliminated@;
        ancestor_child_eliminated_neighbors[v].push(neighbors_set);
        child_eliminated.push(v);
        proof {
            assert(child_eliminated@ == ce_before.push(v));
            assert(child_eliminated@[ce_before.len() as int] == v);
            assert(old(ancestor_child_eliminated_neighbors).len() == old(ancestor_child_eliminated_neighbors)@.len());
            assert forall|x: int| 0 <= x < old(ancestor_child_eliminated_neighbors)@.len() implies stack_after(
                stack_views(old(ancestor_child_eliminated_neighbors)@)[x],
                child_eliminated@.contains(x as usize),
                #[trigger] stack_views(ancestor_child_eliminated_neighbors@)[x],
            ) by {
                if x == v {
                    assert(child_eliminated@[child_eliminated@.len() - 1] == v);
                    assert(!ce_before.contains(v)) by {
                        if ce_before.contains(v) {
                            let j = choose|j: int| 0 <= j < ce_before.len() && ce_before[j] == v;
                        }
                    }
                    assert(stack_views(anc_before)[x] == stack_views(old(ancestor_child_eliminated_neighbors)@)[x]);
                    assert(child_eliminated@.contains(v));
                    assert(stack_views(ancestor_child_eliminated_neighbors@)[x] =~= stack_views(anc_before)[x].push(
                        neighbors_set,
                    ));
                    assert(stack_views(ancestor_child_eliminated_neighbors@)[x].drop_last() =~= stack_views(
                        anc_before,
                    )[x]);
                } else {
                    assert(stack_views(anc_before)[x] == stack_views(ancestor_child_eliminated_neighbors@)[x]);
                    if child_eliminated@.contains(x as usize) {
                        let j = choose|j: int| 0 <= j < child_eliminated@.len() && child_eliminated@[j] == x as usize;
                        assert(j != ce_before.len());
                        assert(ce_before[j] == x as usize);
                    }
                    if ce_before.contains(x as usize) {
                        let j = choose|j: int| 0 <= j < ce_before.len() && ce_before[j] == x as usize;
                        assert(child_eliminated@[j] == x as usize);
                    }
                }
            }
        }
        let mut new_graph = graph.duplicate();
        let added_edges = new_graph.elim_vertex_edges(v);
        let mut dominated = false;
        let mut e: usize = 0;
        while e < vertex_elim_added_edges.len()
            invariant
                e <= vertex_elim_added_edges@.len(),
            decreases vertex_elim_added_edges@.len() - e,
        {
            if pairs_subset(&vertex_elim_added_edges[e], &added_edges) {
                dominated = true;
            }
            e = e + 1;
        }
        if dominated {
            v = v + 1;
            continue;
        }
        vertex_elim_added_edges.push(added_edges);
        match last_vertex {
            Some(lv) => {
                if !contains_pair(previous_child_eliminated, (lv, v)) {
                    previous_child_eliminated.push((lv, v));
                }
            },
            None => {},
        }
        let d = graph.degree(v);
        let new_g = if g > d {
            g
        } else {
            d
        };
        let lower_bound = minor_min_width(&new_graph);
        let new_f = if new_g > lower_bound {
            new_g
        } else {
            lower_bound
        };
        let simplicial = find_all_simplicial_vertices(&new_graph, lower_bound);
        let mut repeated = false;
        let mut s: usize = 0;
        while s < simplicial.len()
            invariant
                s <= simplicial@.len(),
            decreases simplicial@.len() - s,
        {
            if !repeated {
                if contains_pair(&vertex_elim_simplicial_vertices, (simplicial[s], v)) {
                    repeated = true;
                } else {
                    vertex_elim_simplicial_vertices.push((v, simplicial[s]));
                }
            }
            s = s + 1;
        }
        if repeated {
            v = v + 1;
            continue;
        }
        let ghost eliminated = new_graph@;
        proof {
            lemma_elim_step(graph@, v as int);
            crate::graph::model::lemma_elim_graph(graph@, v as int);
        }
        let (reduced_g, reduced_f) = reduce_graph(&mut new_graph, lower_bound, new_g, new_f);
        if reduced_f < upper_bound {
            let ghost before = upper_bound;
            upper_bound = branch_bound_sub(
                &new_graph,
                reduced_g,
                reduced_f,
                upper_bound,
                Some(v),
                Some(neighbors),
                &mut new_previous_child_eliminated,
                ancestor_child_eliminated_neighbors,
            );
            proof {
                if upper_bound != before {
                    assert(max_nat(g as nat, elim_width(graph@)) <= upper_bound);
                }
            }
        }
        v = v + 1;
    }
    let mut c: usize = 0;
    proof {
        assert(child_eliminated@.subrange(0, child_eliminated@.len() as int) =~= child_eliminated@);
    }
    while c < child_eliminated.len()
        invariant
            c <= child_eliminated@.len(),
            ancestor_child_eliminated_neighbors@.len() == old(ancestor_child_eliminated_neighbors)@.len(),
            ancestor_child_eliminated_neighbors@.len() >= n,
            forall|k: int| 0 <= k < child_eliminated@.len() ==> #[trigger] child_eliminated@[k] < n,
            forall|a: int, b: int| 0 <= a < b < child_eliminated@.len() ==> child_eliminated@[a] < child_eliminated@[b],
            forall|x: int|
                0 <= x < old(ancestor_child_eliminated_neighbors)@.len() ==> stack_after(
                    stack_views(old(ancestor_child_eliminated_neighbors)@)[x],
                    child_eliminated@.subrange(c as int, child_eliminated@.len() as int).contains(x as usize),
                    #[trigger] stack_views(ancestor_child_eliminated_neighbors@)[x],
                ),
        decreases child_eliminated@.len() - c,
    {
        let u = child_eliminated[c];
        let ghost anc_before = ancestor_child_eliminated_neighbors@;
        ancestor_child_eliminated_neighbors[u].pop();
        proof {
            assert(old(ancestor_child_eliminated_neighbors).len() == old(ancestor_child_eliminated_neighbors)@.len());
            assert forall|x: int| 0 <= x < old(ancestor_child_eliminated_neighbors)@.len() implies stack_after(
                stack_views(old(ancestor_child_eliminated_neighbors)@)[x],
                child_eliminated@.subrange(c + 1, child_eliminated@.len() as int).contains(x as usize),
                #[trigger] stack_views(ancestor_child_eliminated_neighbors@)[x],
            ) by {
                let rest = child_eliminated@.subrange(c + 1, child_eliminated@.len() as int);
                let rest0 = child_eliminated@.subrange(c as int, child_eliminated@.len() as int);
                if x == u {
                    assert(rest0[0] == u);
                    assert(!rest.contains(u)) by {
                        if rest.contains(u) {
                            let j = choose|j: int| 0 <= j < rest.len() && rest[j] == u;
                            assert(child_eliminated@[c + 1 + j] == u);
                        }
                    }
                    assert(rest0.contains(u));
                    assert(stack_views(anc_before)[x].len() == stack_views(old(ancestor_child_eliminated_neighbors)@)[x].len() + 1);
                    assert(stack_views(ancestor_child_eliminated_neighbors@)[x] =~= stack_views(anc_before)[x].drop_last());
                } else {
                    assert(rest0[0] == u);
                    assert(stack_views(anc_before)[x] == stack_views(ancestor_child_eliminated_neighbors@)[x]);
                    if rest.contains(x as usize) {
                        let j = choose|j: int| 0 <= j < rest.len() && rest[j] == x as usize;
                        assert(rest0[j + 1] == x as usize);
                    }
                    if rest0.contains(x as usize) {
                        let j = choose|j: int| 0 <= j < rest0.len() && rest0[j] == x as usize;
                        assert(j != 0);
                        assert(rest[j - 1] == x as usize);
                    }
                }
            }
        }
        c = c + 1;
    }
    upper_bound
}

/// The width that branch and bound finds: at most the min-fill width, and never below the
/// treewidth.
pub fn treewidth(graph: &Graph) -> (r: usize)
    requires
        graph.wf(),
    ensures
        r <= heuristic_width(graph@, HeuristicAlgorithm::MinFill),
        elim_width(graph@) <= r,
{
    let upper_bound = min_fill(graph);
    proof {
        match graph {
            Graph::AdjList(g) => g.lemma_wf(),
            Graph::BitSet(g) => g.lemma_wf(),
        }
        lemma_heuristic_upper_bound(graph@, HeuristicAlgorithm::MinFill);
    }
    let adj = match graph {
        Graph::AdjList(g) => g.duplicate(),
        Graph::BitSet(g) => g.to_adjlist_graph(),
    };
    let lower_bound = minor_min_width(&adj);
    if lower_bound == upper_bound {
        return lower_bound;
    }
    let mut previous: Vec<(usize, usize)> = Vec::new();
    let mut ancestors: Vec<Vec<Vec<usize>>> = Vec::new();
    let mut k: usize = 0;
    while k < adj.n()
        invariant
            adj.wf(),
            ancestors@.len() == k,
            k <= adj@.len(),
        decreases adj@.len() - k,
    {
        ancestors.push(Vec::new());
        k = k + 1;
    }
    let r = branch_bound_sub(&adj, 0, lower_bound, upper_bound, None, None, &mut previous, &mut ancestors);
    proof {
        assert(max_nat(0, elim_width(adj@)) == elim_width(adj@));
    }
    r
}

} // verus!
