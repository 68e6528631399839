//! Approximation of the treewidth by balanced vertex separators.
//!
//! For growing `k`, the algorithm tries to split the vertex set recursively with separators of
//! at most `k` vertices, completing each part it cannot split further, and every separator
//! together with the vertices it must keep, into a clique. The first `k` for which this
//! succeeds gives the width of the decomposition built: the largest clique minus one.

use std::collections::HashSet;
use vstd::prelude::*;
use crate::graph;
use crate::graph::bitset;
use crate::graph::bitset::{lemma_shaped_same_variant, lemma_small_n, shaped_for};
use crate::graph::model::{is_graph, Nbrs};
use crate::utils::bitset::{lists_in_order, BitSet};
use crate::utils::max_flow::{arc_count, flow_outcome, init_caps, init_heads, max_flow_reachable, total};
use crate::treewidth::exact::{lemma_listing_len, seq_set, sorted_list};
use crate::treewidth::approx::four_approx::{
    choice_before, choice_fails, choice_gives, is_choice, two_third_vertex_separator_bitset,
};
use crate::treewidth::exact::dynamic_prog::all_vertices;

pub mod four_approx;

verus! {

/// The separator-based approximation algorithms.
#[derive(Debug, Clone, Copy, PartialEq, Eq, Structural)]
pub enum ApproxAlgorithm {
    /// The 4-approximation based on separators that split a set of vertices two thirds to
    /// one third.
    FourApprox,
    /// The 4.5-approximation based on separators that split a set of vertices in halves.
    FourHalfApprox,
}

impl ApproxAlgorithm {
    /// The largest width the algorithm may return when the treewidth is `optimal`.
    pub fn worst_case_from_optimal(&self, optimal: usize) -> (r: usize)
        requires
            4 * optimal + optimal / 2 + 1 <= usize::MAX,
        ensures
            r == match self {
                ApproxAlgorithm::FourApprox => 4 * optimal,
                ApproxAlgorithm::FourHalfApprox => 4 * optimal + optimal / 2 + 1,
            },
    {
        match self {
            ApproxAlgorithm::FourApprox => 4 * optimal,
            ApproxAlgorithm::FourHalfApprox => 4 * optimal + optimal / 2 + 1,
        }
    }
}

/// How a width an approximation returned compares with its guarantee for a known treewidth.
#[derive(Debug, Clone, Copy, PartialEq, Eq, Structural)]
pub enum GuaranteeCheck {
    /// At least the treewidth and at most the worst case.
    Within,
    /// Below the treewidth.
    BelowOptimal,
    /// Above the worst case for the treewidth.
    AboveWorstCase,
}

impl ApproxAlgorithm {
    /// Compares `tw`, a width the algorithm returned, with what its guarantee allows when the
    /// treewidth is `optimal`.
    pub fn check_guarantee(&self, optimal: usize, tw: usize) -> (r: GuaranteeCheck)
        requires
            4 * optimal + optimal / 2 + 1 <= usize::MAX,
        ensures
            r == (if tw < optimal {
                GuaranteeCheck::BelowOptimal
            } else if tw > match self {
                ApproxAlgorithm::FourApprox => 4 * optimal,
                ApproxAlgorithm::FourHalfApprox => 4 * optimal + optimal / 2 + 1,
            } {
                GuaranteeCheck::AboveWorstCase
            } else {
                GuaranteeCheck::Within
            }),
    {
        if tw < optimal {
            GuaranteeCheck::BelowOptimal
        } else if tw > self.worst_case_from_optimal(optimal) {
            GuaranteeCheck::AboveWorstCase
        } else {
            GuaranteeCheck::Within
        }
    }
}

/// A separator of a set of vertices and the two parts it leaves, as sets of vertices.
pub struct Separator {
    /// The separator.
    pub sep: HashSet<usize>,
    /// The first part.
    pub c1: HashSet<usize>,
    /// The second part.
    pub c2: HashSet<usize>,
}

/// A separator of a set of vertices and the two parts it leaves, as bitsets.
#[derive(Debug, Clone)]
pub struct SeparatorBitSet {
    /// The separator.
    pub sep: BitSet,
    /// The first part.
    pub c1: BitSet,
    /// The second part.
    pub c2: BitSet,
}

/// Whether `sep`, `c1` and `c2` split `s` into three disjoint parts, all shaped for `n`
/// vertices.
pub open spec fn splits(sep: SeparatorBitSet, s: Set<int>, n: int) -> bool {
    &&& shaped_for(sep.sep, n)
    &&& shaped_for(sep.c1, n)
    &&& shaped_for(sep.c2, n)
    &&& forall|x: int| #[trigger] s.contains(x) == (sep.sep@.contains(x) || sep.c1@.contains(x) || sep.c2@.contains(x))
    &&& sep.sep@.disjoint(sep.c1@)
    &&& sep.sep@.disjoint(sep.c2@)
    &&& sep.c1@.disjoint(sep.c2@)
}

/// The node of the flow network through which flow enters vertex `i`.
pub(crate) fn vin(i: usize) -> (r: usize)
    requires
        2 * i <= usize::MAX,
    ensures
        r == 2 * i,
{
    2 * i
}

/// The node of the flow network through which flow leaves vertex `i`.
pub(crate) fn vout(i: usize) -> (r: usize)
    requires
        2 * i + 1 <= usize::MAX,
    ensures
        r == 2 * i + 1,
{
    2 * i + 1
}

/// Adds the arc `from -> to` with capacity `cap`.
pub(crate) fn add_arc(edges: &mut Vec<(usize, usize)>, capacities: &mut Vec<usize>, from: usize, to: usize, cap: usize)
    ensures
        final(edges)@ == old(edges)@.push((from, to)),
        final(capacities)@ == old(capacities)@.push(cap),
{
    edges.push((from, to));
    capacities.push(cap);
}

/// Whether every arc joins two nodes below `m`.
pub open spec fn arcs_below(edges: Seq<(usize, usize)>, m: int) -> bool {
    forall|e: int| 0 <= e < edges.len() ==> #[trigger] edges[e].0 < m && edges[e].1 < m
}

/// Whether `node_map` sends the `i`-th listed vertex to `i`.
pub open spec fn maps_positions(node_map: Seq<usize>, list: Seq<usize>) -> bool {
    forall|i: int| 0 <= i < list.len() ==> #[trigger] node_map[list[i] as int] == i
}

/// A set of vertices below `n` has at most `n` elements.
pub proof fn lemma_vertex_set_len(s: Set<int>, n: int)
    requires
        n >= 0,
        forall|x: int| #[trigger] s.contains(x) ==> 0 <= x < n,
    ensures
        s.finite(),
        s.len() <= n,
{
    vstd::set_lib::lemma_int_range(0, n);
    assert(s.subset_of(vstd::set_lib::set_int_range(0, n)));
    vstd::set_lib::lemma_len_subset(s, vstd::set_lib::set_int_range(0, n));
}

/// When `n * n` fits in a `usize`, so do the flow network's node numbers.
pub proof fn lemma_nodes_fit(n: int)
    requires
        0 <= n,
        n * n <= usize::MAX,
    ensures
        2 * n + 8 <= usize::MAX,
{
    if n >= 9 {
        assert(n * n >= 9 * n) by (nonlinear_arith)
            requires
                n >= 9,
        ;
    }
}

/// With `16 n^2 + 16` in a `usize`, so are the small multiples of `n` the search uses.
pub proof fn lemma_multiples_fit(n: int)
    requires
        0 <= n,
        16 * n * n + 16 <= usize::MAX,
    ensures
        4 * n + 2 <= usize::MAX,
        n * n <= usize::MAX,
{
    assert(n * n >= 0 && n * n <= 16 * n * n) by (nonlinear_arith)
        requires
            n >= 0,
    ;
    if n >= 1 {
        assert(16 * n * n >= 4 * n) by (nonlinear_arith)
            requires
                n >= 1,
        ;
    }
}

/// A copy of a list of arcs.
pub(crate) fn copy_arcs(v: &Vec<(usize, usize)>) -> (r: Vec<(usize, usize)>)
    ensures
        r@ == v@,
{
    let mut r: Vec<(usize, usize)> = Vec::new();
    let mut i: usize = 0;
    while i < v.len()
        invariant
            i <= v@.len(),
            r@ == v@.take(i as int),
        decreases v@.len() - i,
    {
        r.push(v[i]);
        i = i + 1;
        proof {
            assert(r@ =~= v@.take(i as int));
        }
    }
    proof {
        assert(v@.take(v@.len() as int) =~= v@);
    }
    r
}

/// A copy of a list of capacities.
pub(crate) fn copy_caps(v: &Vec<usize>) -> (r: Vec<usize>)
    ensures
        r@ == v@,
{
    let mut r: Vec<usize> = Vec::new();
    let mut i: usize = 0;
    while i < v.len()
        invariant
            i <= v@.len(),
            r@ == v@.take(i as int),
        decreases v@.len() - i,
    {
        r.push(v[i]);
        i = i + 1;
        proof {
            assert(r@ =~= v@.take(i as int));
        }
    }
    proof {
        assert(v@.take(v@.len() as int) =~= v@);
    }
    r
}

/// The arcs, with their capacities, that the neighbours `nbrs[..k]` of the vertex at position
/// `i` give: one of capacity `inf` from its exit node to the entry node of each neighbour in
/// `subset`.
pub open spec fn nbr_arcs(subset: Set<int>, node_map: Seq<usize>, i: int, nbrs: Seq<usize>, k: int, inf: usize) -> Seq<((usize, usize), usize)>
    decreases k,
{
    if k <= 0 {
        Seq::empty()
    } else {
        nbr_arcs(subset, node_map, i, nbrs, k - 1, inf) + if subset.contains(nbrs[k - 1] as int) {
            seq![(((2 * i + 1) as usize, (2 * node_map[nbrs[k - 1] as int]) as usize), inf)]
        } else {
            Seq::empty()
        }
    }
}

/// The arcs, with their capacities, of the flow network for the first `i` listed vertices: for
/// each, the arc of capacity 1 from its entry node to its exit node, then the arcs to its
/// neighbours in `subset`, taken in increasing order.
pub open spec fn base_arcs(g: Nbrs, subset: Set<int>, subset_vec: Seq<usize>, node_map: Seq<usize>, inf: usize, i: int) -> Seq<((usize, usize), usize)>
    decreases i,
{
    if i <= 0 {
        Seq::empty()
    } else {
        let nbrs = sorted_list(g[subset_vec[i - 1] as int]);
        base_arcs(g, subset, subset_vec, node_map, inf, i - 1) + seq![(((2 * (i - 1)) as usize, (2 * (i - 1) + 1) as usize), 1usize)]
            + nbr_arcs(subset, node_map, i - 1, nbrs, nbrs.len() as int, inf)
    }
}

/// The arcs of a list of arcs with capacities.
pub open spec fn arcs_of(a: Seq<((usize, usize), usize)>) -> Seq<(usize, usize)> {
    a.map_values(|p: ((usize, usize), usize)| p.0)
}

/// The capacities of a list of arcs with capacities.
pub open spec fn caps_of(a: Seq<((usize, usize), usize)>) -> Seq<usize> {
    a.map_values(|p: ((usize, usize), usize)| p.1)
}

/// The flow network of the subgraph that `subset` induces: each vertex is an arc of capacity 1
/// from its entry node to its exit node, and each edge gives arcs of capacity `inf` from the
/// exit node of either end to the entry node of the other.
pub(crate) fn build_base_flow_network_bitset(
    graph: &bitset::Graph,
    subset: &BitSet,
    subset_vec: &Vec<usize>,
    node_map: &Vec<usize>,
    inf: usize,
) -> (r: (Vec<(usize, usize)>, Vec<usize>))
    requires
        graph.wf(),
        shaped_for(*subset, graph@.len() as int),
        lists_in_order(subset_vec@, subset@),
        forall|x: int| #[trigger] subset@.contains(x) ==> x < graph@.len(),
        node_map@.len() == graph@.len(),
        maps_positions(node_map@, subset_vec@),
    ensures
        r.0@.len() == r.1@.len(),
        arcs_below(r.0@, 2 * subset_vec@.len() as int),
        r.0@.len() <= subset_vec@.len() * graph@.len(),
        r.0@ == arcs_of(base_arcs(graph@, subset@, subset_vec@, node_map@, inf, subset_vec@.len() as int)),
        r.1@ == caps_of(base_arcs(graph@, subset@, subset_vec@, node_map@, inf, subset_vec@.len() as int)),
{
    let ghost n = graph@.len();
    proof {
        graph.lemma_wf();
        graph.lemma_shapes();
        lemma_small_n(n as int);
        lemma_nodes_fit(n as int);
        lemma_listing_len(subset_vec@, subset@);
        subset.lemma_view_finite();
        lemma_vertex_set_len(subset@, n as int);
    }
    let len = subset_vec.len();
    let mut base_edges: Vec<(usize, usize)> = Vec::new();
    let mut base_cap: Vec<usize> = Vec::new();
    let mut i: usize = 0;
    while i < len
        invariant
            graph.wf(),
            n == graph@.len(),
            n * n <= usize::MAX,
            is_graph(graph@),
            shaped_for(*subset, n as int),
            lists_in_order(subset_vec@, subset@),
            forall|x: int| #[trigger] subset@.contains(x) ==> x < n,
            node_map@.len() == n,
            maps_positions(node_map@, subset_vec@),
            len == subset_vec@.len(),
            len <= n,
            i <= len,
            base_edges@.len() == base_cap@.len(),
            arcs_below(base_edges@, 2 * len),
            base_edges@.len() <= i * n,
            base_edges@ == arcs_of(base_arcs(graph@, subset@, subset_vec@, node_map@, inf, i as int)),
            base_cap@ == caps_of(base_arcs(graph@, subset@, subset_vec@, node_map@, inf, i as int)),
        decreases len - i,
    {
        let orig_v = subset_vec[i];
        proof {
            assert(subset@.contains(orig_v as int));
            graph.lemma_wf();
            graph.lemma_shapes();
            lemma_nodes_fit(n as int);
        }
        let v = node_map[orig_v];
        let from = vin(v);
        let to = vout(v);
        add_arc(&mut base_edges, &mut base_cap, from, to, 1);
        let ghost head = base_arcs(graph@, subset@, subset_vec@, node_map@, inf, i as int) + seq![
            (((2 * i) as usize, (2 * i + 1) as usize), 1usize),
        ];
        proof {
            assert(base_edges@ =~= arcs_of(head));
            assert(base_cap@ =~= caps_of(head));
        }
        let neighbors = graph.neighbors_ref(orig_v).unwrap().to_vec();
        proof {
            crate::treewidth::exact::orders::lemma_sorted_list_exists(graph@[orig_v as int], n as int);
            crate::treewidth::exact::lemma_sorted_unique(neighbors@, sorted_list(graph@[orig_v as int]), graph@[orig_v as int]);
            crate::graph::model::lemma_degree_bound(graph@, orig_v as int);
            lemma_listing_len(neighbors@, graph@[orig_v as int]);
            assert forall|j: int| 0 <= j < neighbors@.len() implies #[trigger] neighbors@[j] < n by {
                assert(graph@[orig_v as int].contains(neighbors@[j] as int));
            }
        }
        let ghost start = base_edges@.len();
        let mut k: usize = 0;
        while k < neighbors.len()
            invariant
                graph.wf(),
                n == graph@.len(),
                n * n <= usize::MAX,
                len <= n,
                shaped_for(*subset, n as int),
                lists_in_order(subset_vec@, subset@),
                forall|x: int| #[trigger] subset@.contains(x) ==> x < n,
                node_map@.len() == n,
                maps_positions(node_map@, subset_vec@),
                len == subset_vec@.len(),
                i < len,
                v == i,
                k <= neighbors@.len(),
                neighbors@.len() < n,
                forall|j: int| 0 <= j < neighbors@.len() ==> #[trigger] neighbors@[j] < n,
                base_edges@.len() == base_cap@.len(),
                arcs_below(base_edges@, 2 * len),
                base_edges@.len() <= start + k,
                start <= i * n + 1,
                base_edges@ == arcs_of(head + nbr_arcs(subset@, node_map@, i as int, neighbors@, k as int, inf)),
                base_cap@ == caps_of(head + nbr_arcs(subset@, node_map@, i as int, neighbors@, k as int, inf)),
            decreases neighbors@.len() - k,
        {
            let orig_u = neighbors[k];
            proof {
                lemma_small_n(n as int);
                lemma_nodes_fit(n as int);
            }
            if subset.contains(orig_u) {
                let u = node_map[orig_u];
                proof {
                    let j = choose|j: int| 0 <= j < subset_vec@.len() && subset_vec@[j] == orig_u as int;
                    assert(node_map@[subset_vec@[j] as int] == j);
                }
                let from = vout(v);
                let to = vin(u);
                add_arc(&mut base_edges, &mut base_cap, from, to, inf);
            }
            proof {
                let x = head + nbr_arcs(subset@, node_map@, i as int, neighbors@, k + 1, inf);
                assert(base_edges@ =~= arcs_of(x));
                assert(base_cap@ =~= caps_of(x));
            }
            k = k + 1;
        }
        proof {
            assert(base_edges@.len() <= (i + 1) * n) by (nonlinear_arith)
                requires
                    base_edges@.len() <= start + neighbors@.len(),
                    start <= i * n + 1,
                    neighbors@.len() < n,
            ;
            let x = base_arcs(graph@, subset@, subset_vec@, node_map@, inf, i + 1);
            assert(subset_vec@[i as int] == orig_v);
            assert(x =~= head + nbr_arcs(subset@, node_map@, i as int, neighbors@, neighbors@.len() as int, inf));
        }
        i = i + 1;
    }
    (base_edges, base_cap)
}

/// Whether the vertex `x` at position `j` is put where the marks of its entry node `2j` and exit
/// node `2j + 1` send it: into the separator when only the entry is reached, into the first part
/// when both are, into the second part when the entry is not.
pub open spec fn classified(reach: Seq<bool>, sep: Set<int>, c1: Set<int>, c2: Set<int>, j: int, x: usize) -> bool {
    &&& sep.contains(x as int) == (reach[2 * j] && !reach[2 * j + 1])
    &&& c1.contains(x as int) == (reach[2 * j] && reach[2 * j + 1])
    &&& c2.contains(x as int) == !reach[2 * j]
}

/// Whether every listed vertex is put where the marks of its nodes send it.
pub open spec fn separator_from(reach: Seq<bool>, sep: SeparatorBitSet, subset_vec: Seq<usize>) -> bool {
    forall|j: int| 0 <= j < subset_vec.len() ==> #[trigger] classified(reach, sep.sep@, sep.c1@, sep.c2@, j, subset_vec[j])
}

/// Reads a separator off a flow of less than `k + 1` from `src_out` to `sink_in`: a vertex
/// whose entry node the source reaches in the residual network but not its exit node is in the
/// separator, one whose entry node it reaches otherwise is in the first part, and the rest is in
/// the second part. `None` when the flow reaches `k + 1`.
pub(crate) fn minimum_vertex_separator_bitset(
    n: usize,
    edges: &Vec<(usize, usize)>,
    capacities: &Vec<usize>,
    src_out: usize,
    sink_in: usize,
    k: usize,
    subset_vec: &Vec<usize>,
    node_map: &Vec<usize>,
    graph_n: usize,
    subset: Ghost<Set<int>>,
) -> (r: Option<SeparatorBitSet>)
    requires
        n < i32::MAX,
        src_out < n,
        sink_in < n,
        arcs_below(edges@, n as int),
        2 * edges@.len() + 2 <= usize::MAX,
        k < usize::MAX,
        2 * subset_vec@.len() + 1 < n,
        graph_n * graph_n <= usize::MAX,
        lists_in_order(subset_vec@, subset@),
        forall|x: int| #[trigger] subset@.contains(x) ==> x < graph_n,
        node_map@.len() == graph_n,
        maps_positions(node_map@, subset_vec@),
    ensures
        r matches Some(sep) ==> splits(sep, subset@, graph_n as int),
        exists|fl: Seq<(Seq<int>, int)>, ro: Option<Vec<bool>>|
            #![trigger flow_outcome(
                init_heads(edges@, arc_count(edges@, capacities@)),
                init_caps(capacities@, arc_count(edges@, capacities@)),
                src_out as int,
                sink_in as int,
                k + 1,
                total(fl),
                fl,
                ro,
            )]
            flow_outcome(
                init_heads(edges@, arc_count(edges@, capacities@)),
                init_caps(capacities@, arc_count(edges@, capacities@)),
                src_out as int,
                sink_in as int,
                k + 1,
                total(fl),
                fl,
                ro,
            ) && (ro is None <==> r is None) && (ro matches Some(reach) ==> r matches Some(sep)
                && separator_from(reach@, sep, subset_vec@)),
{
    let res = max_flow_reachable(n, edges.as_slice(), capacities.as_slice(), src_out, sink_in, k + 1);
    let ghost heads = init_heads(edges@, arc_count(edges@, capacities@));
    let ghost caps0 = init_caps(capacities@, arc_count(edges@, capacities@));
    let ghost fl = choose|fl: Seq<(Seq<int>, int)>|
        flow_outcome(heads, caps0, src_out as int, sink_in as int, k + 1, #[trigger] total(fl), fl, res);
    let reachable = match res {
        Some(reachable) => reachable,
        None => {
            proof {
                assert(flow_outcome(heads, caps0, src_out as int, sink_in as int, k + 1, total(fl), fl, res));
            }
            return None;
        },
    };
    proof {
        lemma_small_n(graph_n as int);
    }
    let mut separator = BitSet::new(graph_n);
    let mut c1 = BitSet::new(graph_n);
    let mut c2 = BitSet::new(graph_n);
    let mut i: usize = 0;
    while i < subset_vec.len()
        invariant
            reachable@.len() == n,
            2 * subset_vec@.len() + 1 < n,
            graph_n * graph_n <= usize::MAX,
            lists_in_order(subset_vec@, subset@),
            forall|x: int| #[trigger] subset@.contains(x) ==> x < graph_n,
            node_map@.len() == graph_n,
            maps_positions(node_map@, subset_vec@),
            i <= subset_vec@.len(),
            shaped_for(separator, graph_n as int),
            shaped_for(c1, graph_n as int),
            shaped_for(c2, graph_n as int),
            forall|x: int| #[trigger] separator@.contains(x) ==> exists|j: int| 0 <= j < i && subset_vec@[j] == x,
            forall|x: int| #[trigger] c1@.contains(x) ==> exists|j: int| 0 <= j < i && subset_vec@[j] == x,
            forall|x: int| #[trigger] c2@.contains(x) ==> exists|j: int| 0 <= j < i && subset_vec@[j] == x,
            forall|j: int| 0 <= j < i ==> (#[trigger] separator@.contains(subset_vec@[j] as int) || c1@.contains(subset_vec@[j] as int) || c2@.contains(subset_vec@[j] as int)),
            separator@.disjoint(c1@),
            separator@.disjoint(c2@),
            c1@.disjoint(c2@),
            forall|j: int| 0 <= j < i ==> classified(reachable@, separator@, c1@, c2@, j, #[trigger] subset_vec@[j]),
        decreases subset_vec@.len() - i,
    {
        let v = subset_vec[i];
        proof {
            assert(subset@.contains(v as int));
            lemma_small_n(graph_n as int);
            assert(node_map@[subset_vec@[i as int] as int] == i);
            assert forall|j: int| 0 <= j < i implies subset_vec@[j] != v by {
                assert(subset_vec@[j] < subset_vec@[i as int]);
            }
        }
        let mapped = node_map[v];
        let v_in = vin(mapped);
        let v_out = vout(mapped);
        let ghost sep_before = separator@;
        let ghost c1_before = c1@;
        let ghost c2_before = c2@;
        if reachable[v_in] && !reachable[v_out] {
            separator.insert(v);
        } else if reachable[v_in] {
            c1.insert(v);
        } else {
            c2.insert(v);
        }
        proof {
            assert forall|x: int| #[trigger] separator@.contains(x) implies exists|j: int| 0 <= j < i + 1 && subset_vec@[j] == x by {
                if x == v {
                    assert(subset_vec@[i as int] == x);
                }
            }
            assert forall|x: int| #[trigger] c1@.contains(x) implies exists|j: int| 0 <= j < i + 1 && subset_vec@[j] == x by {
                if x == v {
                    assert(subset_vec@[i as int] == x);
                }
            }
            assert forall|x: int| #[trigger] c2@.contains(x) implies exists|j: int| 0 <= j < i + 1 && subset_vec@[j] == x by {
                if x == v {
                    assert(subset_vec@[i as int] == x);
                }
            }
            assert forall|j: int| 0 <= j < i + 1 implies classified(reachable@, separator@, c1@, c2@, j, #[trigger] subset_vec@[j]) by {
                if j < i {
                    assert(subset_vec@[j] != v);
                    assert(classified(reachable@, sep_before, c1_before, c2_before, j, subset_vec@[j]));
                }
            }
        }
        i = i + 1;
    }
    let r = SeparatorBitSet { sep: separator, c1, c2 };
    proof {
        assert forall|x: int| #[trigger] subset@.contains(x) == (r.sep@.contains(x) || r.c1@.contains(x) || r.c2@.contains(x)) by {
            if subset@.contains(x) {
                let j = choose|j: int| 0 <= j < subset_vec@.len() && subset_vec@[j] == x;
                assert(r.sep@.contains(subset_vec@[j] as int) || r.c1@.contains(subset_vec@[j] as int) || r.c2@.contains(subset_vec@[j] as int));
            }
            if r.sep@.contains(x) || r.c1@.contains(x) || r.c2@.contains(x) {
                let j = choose|j: int| 0 <= j < subset_vec@.len() && subset_vec@[j] == x;
                assert(subset@.contains(subset_vec@[j] as int));
            }
        }
        assert(separator_from(reachable@, r, subset_vec@)) by {
            assert forall|j: int| 0 <= j < subset_vec@.len() implies #[trigger] classified(reachable@, r.sep@, r.c1@, r.c2@, j, subset_vec@[j]) by {
                assert(classified(reachable@, separator@, c1@, c2@, j, subset_vec@[j]));
            }
        }
        assert(flow_outcome(heads, caps0, src_out as int, sink_in as int, k + 1, total(fl), fl, res));
    }
    Some(r)
}

/// Whether the positions `(p, q)` come before `(i, j)` in a scan over the pairs `p < q` of a
/// list.
pub open spec fn pair_done(p: int, q: int, i: int, j: int) -> bool {
    p < q && (p < i || (p == i && q < j))
}

/// `g` with an edge between the entries of `vs` at every pair of positions scanned before
/// `(i, j)`.
pub open spec fn with_pairs(g: Nbrs, vs: Seq<usize>, i: int, j: int) -> Nbrs {
    Seq::new(
        g.len(),
        |x: int|
            g[x].union(
                Set::new(
                    |y: int|
                        exists|p: int, q: int|
                            #![trigger vs[p], vs[q]]
                            0 <= p < vs.len() && 0 <= q < vs.len() && pair_done(p, q, i, j) && ((vs[p] == x
                                && vs[q] == y) || (vs[q] == x && vs[p] == y)),
                ),
            ),
    )
}

/// `g` with every two distinct vertices of `c` made adjacent.
pub open spec fn with_clique(g: Nbrs, c: Set<int>) -> Nbrs {
    Seq::new(g.len(), |x: int| if c.contains(x) { g[x].union(c.remove(x)) } else { g[x] })
}

/// Makes every two vertices listed in `vertices` adjacent.
fn add_clique(graph: &mut bitset::Graph, vertices: &Vec<usize>)
    requires
        old(graph).wf(),
        forall|a: int, b: int| 0 <= a < b < vertices@.len() ==> vertices@[a] < vertices@[b],
        forall|a: int| 0 <= a < vertices@.len() ==> #[trigger] vertices@[a] < old(graph)@.len(),
    ensures
        final(graph).wf(),
        final(graph)@.len() == old(graph)@.len(),
        final(graph)@ == with_clique(old(graph)@, seq_set(vertices@)),
{
    let ghost g0 = graph@;
    let ghost vs = vertices@;
    proof {
        assert(graph@ =~= with_pairs(g0, vs, 0, 1)) by {
            assert forall|x: int| 0 <= x < g0.len() implies #[trigger] graph@[x] =~= with_pairs(g0, vs, 0, 1)[x] by {}
        }
    }
    let mut i: usize = 0;
    while i < vertices.len()
        invariant
            graph.wf(),
            vs == vertices@,
            graph@.len() == g0.len(),
            forall|a: int, b: int| 0 <= a < b < vertices@.len() ==> vertices@[a] < vertices@[b],
            forall|a: int| 0 <= a < vertices@.len() ==> #[trigger] vertices@[a] < graph@.len(),
            i <= vertices@.len(),
            graph@ == with_pairs(g0, vs, i as int, i + 1),
        decreases vertices@.len() - i,
    {
        let mut j: usize = i + 1;
        while j < vertices.len()
            invariant
                graph.wf(),
                vs == vertices@,
                graph@.len() == g0.len(),
                forall|a: int, b: int| 0 <= a < b < vertices@.len() ==> vertices@[a] < vertices@[b],
                forall|a: int| 0 <= a < vertices@.len() ==> #[trigger] vertices@[a] < graph@.len(),
                i < j <= vertices@.len(),
                graph@ == with_pairs(g0, vs, i as int, j as int),
            decreases vertices@.len() - j,
        {
            let ghost before = graph@;
            graph.add_edge(vertices[i], vertices[j]);
            proof {
                let a = vs[i as int] as int;
                let b = vs[j as int] as int;
                graph.lemma_wf();
                assert(graph@[a].contains(b) && graph@[b].contains(a));
                assert(forall|x: int, y: int| 0 <= x < g0.len() && before[x].contains(y) ==> #[trigger] graph@[x].contains(y));
                assert(forall|x: int, y: int| 0 <= x < g0.len() && #[trigger] graph@[x].contains(y) ==> before[x].contains(y) || (x == a && y == b) || (x == b && y == a));
                assert forall|x: int| 0 <= x < g0.len() implies #[trigger] graph@[x] =~= with_pairs(g0, vs, i as int, j + 1)[x] by {
                    assert forall|y: int| #[trigger] graph@[x].contains(y) == with_pairs(g0, vs, i as int, j + 1)[x].contains(y) by {
                        if with_pairs(g0, vs, i as int, j + 1)[x].contains(y) && !g0[x].contains(y) {
                            let (p, q) = choose|p: int, q: int|
                                #![trigger vs[p], vs[q]]
                                0 <= p < vs.len() && 0 <= q < vs.len() && pair_done(p, q, i as int, j + 1) && ((vs[p] == x
                                    && vs[q] == y) || (vs[q] == x && vs[p] == y));
                            if !(p == i && q == j) {
                                assert(pair_done(p, q, i as int, j as int));
                                assert(before[x].contains(y));
                            } else {
                                assert((x == a && y == b) || (x == b && y == a));
                            }
                        }
                        if graph@[x].contains(y) && !before[x].contains(y) {
                            assert(pair_done(i as int, j as int, i as int, j + 1));
                            assert(vs[i as int] == a && vs[j as int] == b);
                        }
                        if before[x].contains(y) && !g0[x].contains(y) {
                            let (p, q) = choose|p: int, q: int|
                                #![trigger vs[p], vs[q]]
                                0 <= p < vs.len() && 0 <= q < vs.len() && pair_done(p, q, i as int, j as int) && ((vs[p] == x
                                    && vs[q] == y) || (vs[q] == x && vs[p] == y));
                            assert(pair_done(p, q, i as int, j + 1));
                        }
                    }
                }
                assert(graph@ =~= with_pairs(g0, vs, i as int, j + 1));
            }
            j = j + 1;
        }
        proof {
            assert forall|x: int| 0 <= x < g0.len() implies #[trigger] graph@[x] =~= with_pairs(g0, vs, i + 1, i + 2)[x] by {
                assert forall|y: int| #[trigger] graph@[x].contains(y) == with_pairs(g0, vs, i + 1, i + 2)[x].contains(y) by {
                    if with_pairs(g0, vs, i + 1, i + 2)[x].contains(y) && !g0[x].contains(y) {
                        let (p, q) = choose|p: int, q: int|
                            #![trigger vs[p], vs[q]]
                            0 <= p < vs.len() && 0 <= q < vs.len() && pair_done(p, q, i + 1, i + 2) && ((vs[p] == x
                                && vs[q] == y) || (vs[q] == x && vs[p] == y));
                        assert(pair_done(p, q, i as int, vs.len() as int));
                    }
                    if graph@[x].contains(y) && !g0[x].contains(y) {
                        let (p, q) = choose|p: int, q: int|
                            #![trigger vs[p], vs[q]]
                            0 <= p < vs.len() && 0 <= q < vs.len() && pair_done(p, q, i as int, vs.len() as int) && ((vs[p] == x
                                && vs[q] == y) || (vs[q] == x && vs[p] == y));
                        assert(pair_done(p, q, i + 1, i + 2));
                    }
                }
            }
            assert(graph@ =~= with_pairs(g0, vs, i + 1, i + 2));
        }
        i = i + 1;
    }
    proof {
        let c = seq_set(vs);
        assert forall|x: int| 0 <= x < g0.len() implies #[trigger] graph@[x] =~= with_clique(g0, c)[x] by {
            assert forall|y: int| #[trigger] graph@[x].contains(y) == with_clique(g0, c)[x].contains(y) by {
                if graph@[x].contains(y) && !g0[x].contains(y) {
                    let (p, q) = choose|p: int, q: int|
                        #![trigger vs[p], vs[q]]
                        0 <= p < vs.len() && 0 <= q < vs.len() && pair_done(p, q, i as int, i + 1) && ((vs[p] == x
                            && vs[q] == y) || (vs[q] == x && vs[p] == y));
                    assert(c.contains(vs[p] as int) && c.contains(vs[q] as int));
                    assert(vs[p] != vs[q]);
                }
                if with_clique(g0, c)[x].contains(y) && !g0[x].contains(y) {
                    let p = choose|p: int| 0 <= p < vs.len() && vs[p] == x;
                    let q = choose|q: int| 0 <= q < vs.len() && vs[q] == y;
                    if p < q {
                        assert(pair_done(p, q, i as int, i + 1));
                    } else {
                        assert(p != q);
                        assert(pair_done(q, p, i as int, i + 1));
                    }
                }
            }
        }
        assert(graph@ =~= with_clique(g0, c));
    }
}

/// The larger of two integers.
pub open spec fn max_int(a: int, b: int) -> int {
    if a > b {
        a
    } else {
        b
    }
}

/// `w` grown by the members `members[..t]` not in it, in order, until it has `lim` elements.
pub open spec fn grown(members: Seq<usize>, w: Set<int>, lim: int, t: int) -> Set<int>
    decreases t,
{
    if t <= 0 {
        w
    } else {
        let prev = grown(members, w, lim, t - 1);
        if prev.len() >= lim || w.contains(members[t - 1] as int) {
            prev
        } else {
            prev.insert(members[t - 1] as int)
        }
    }
}

/// Once it has `lim` elements, the grown set stays as it is.
proof fn lemma_grown_stable(members: Seq<usize>, w: Set<int>, lim: int, t: int, u: int)
    requires
        0 <= t <= u,
        grown(members, w, lim, t).len() >= lim,
    ensures
        grown(members, w, lim, u) == grown(members, w, lim, t),
    decreases u - t,
{
    if u > t {
        lemma_grown_stable(members, w, lim, t, u - 1);
    }
}

/// How the decomposition of a set of vertices went: the set became a bag, no separator was
/// found for it, or a separator split it and the two sides went as the two traces say.
pub enum DecompTrace {
    Bag,
    NoSeparator,
    Split(SeparatorBitSet, Box<DecompTrace>, Box<DecompTrace>),
}

/// Whether no choice of `W1` and `W2` in `wb` gives a separator of `subset` that passes, for the
/// numbering of `subset` by position.
pub open spec fn no_separator(g: Nbrs, subset: Set<int>, wb: Set<int>, k: int) -> bool {
    exists|nm: Seq<usize>|
        #![trigger maps_positions(nm, sorted_list(subset))]
        nm.len() == g.len() && maps_positions(nm, sorted_list(subset)) && forall|a: int, b: int|
            is_choice(wb, a, b) ==> #[trigger] choice_fails(g, subset, wb, nm, k, a, b)
}

/// Whether `sep` passes (at most `k` vertices, both parts non-empty) and is what the first
/// choice of `W1` and `W2` in `wb` that gives a passing separator gives.
pub open spec fn separator_found(g: Nbrs, subset: Set<int>, wb: Set<int>, k: int, sep: SeparatorBitSet) -> bool {
    &&& splits(sep, subset, g.len() as int)
    &&& sep.sep@.len() <= k
    &&& sep.c1@.len() > 0
    &&& sep.c2@.len() > 0
    &&& exists|nm: Seq<usize>|
        #![trigger maps_positions(nm, sorted_list(subset))]
        nm.len() == g.len() && maps_positions(nm, sorted_list(subset)) && exists|a: int, b: int|
            is_choice(wb, a, b) && #[trigger] choice_gives(g, subset, wb, nm, k, a, b, sep) && forall|a2: int, b2: int|
                is_choice(wb, a2, b2) && choice_before(a2, b2, a, b) ==> #[trigger] choice_fails(g, subset, wb, nm, k, a2, b2)
}

/// The result of the decomposition that a trace describes: whether it succeeded, the graph
/// with the bags made cliques, and the largest bag so far.
pub open spec fn outcome(g: Nbrs, subset: Set<int>, w: Set<int>, mb: int, tr: DecompTrace) -> (bool, Nbrs, int)
    decreases tr,
{
    match tr {
        DecompTrace::Bag => (true, with_clique(g, subset), max_int(mb, subset.len() as int)),
        DecompTrace::NoSeparator => (false, g, mb),
        DecompTrace::Split(sep, t1, t2) => {
            let s1 = sep.sep@.union(sep.c1@);
            let w1 = sep.sep@.union(w.intersect(sep.c1@));
            let o1 = outcome(g, s1, w1, mb, *t1);
            if !o1.0 {
                o1
            } else {
                let s2 = sep.sep@.union(sep.c2@);
                let w2 = sep.sep@.union(w.intersect(sep.c2@));
                let o2 = outcome(o1.1, s2, w2, o1.2, *t2);
                if !o2.0 {
                    o2
                } else {
                    let c = w.union(sep.sep@);
                    (true, with_clique(o2.1, c), max_int(o2.2, c.len() as int))
                }
            }
        },
    }
}

/// Whether the trace is how the decomposition of `subset` keeping `w` together, with separators
/// of at most `k` vertices, goes on `g`.
pub open spec fn valid_trace(g: Nbrs, subset: Set<int>, w: Set<int>, k: int, mb: int, tr: DecompTrace) -> bool
    decreases tr,
{
    let wb = grown(sorted_list(subset), w, 3 * k + 2, sorted_list(subset).len() as int);
    match tr {
        DecompTrace::Bag => subset.len() <= 4 * k,
        DecompTrace::NoSeparator => subset.len() > 4 * k && no_separator(g, subset, wb, k),
        DecompTrace::Split(sep, t1, t2) => {
            let s1 = sep.sep@.union(sep.c1@);
            let w1 = sep.sep@.union(w.intersect(sep.c1@));
            let o1 = outcome(g, s1, w1, mb, *t1);
            &&& subset.len() > 4 * k
            &&& separator_found(g, subset, wb, k, sep)
            &&& valid_trace(g, s1, w1, k, mb, *t1)
            &&& o1.0 ==> valid_trace(o1.1, sep.sep@.union(sep.c2@), sep.sep@.union(w.intersect(sep.c2@)), k, o1.2, *t2)
        },
    }
}

/// After the failed runs `trs` for `k = 1, 2, ...`: the next `k` and the largest bag so far.
pub open spec fn runs_state(g: Nbrs, keep: bool, trs: Seq<DecompTrace>) -> (int, int)
    decreases trs.len(),
{
    if trs.len() == 0 {
        (1, 0)
    } else {
        let st = runs_state(g, keep, trs.drop_last());
        let mb0 = if keep {
            st.1
        } else {
            0
        };
        (st.0 + 1, outcome(g, all_vertices(g.len() as int), Set::empty(), mb0, trs.last()).2)
    }
}

/// Whether `trs` are failed runs of the decomposition of all vertices for `k = 1, 2, ...`, the
/// largest bag carried over from run to run when `keep`.
pub open spec fn runs_failed(g: Nbrs, keep: bool, trs: Seq<DecompTrace>) -> bool
    decreases trs.len(),
{
    trs.len() == 0 || {
        let st = runs_state(g, keep, trs.drop_last());
        let mb0 = if keep {
            st.1
        } else {
            0
        };
        &&& runs_failed(g, keep, trs.drop_last())
        &&& valid_trace(g, all_vertices(g.len() as int), Set::empty(), st.0, mb0, trs.last())
        &&& !outcome(g, all_vertices(g.len() as int), Set::empty(), mb0, trs.last()).0
    }
}

/// Whether `r` is the width the approximation reports on `g`: after the failed runs `trs`, the
/// run `tr` succeeds and `r` is its largest bag minus one.
pub open spec fn approx_reports(g: Nbrs, keep: bool, trs: Seq<DecompTrace>, tr: DecompTrace, r: int) -> bool {
    let st = runs_state(g, keep, trs);
    let mb0 = if keep {
        st.1
    } else {
        0
    };
    let o = outcome(g, all_vertices(g.len() as int), Set::empty(), mb0, tr);
    &&& runs_failed(g, keep, trs)
    &&& valid_trace(g, all_vertices(g.len() as int), Set::empty(), st.0, mb0, tr)
    &&& o.0
    &&& r == o.2 - 1
}

/// A listing in increasing order holds exactly the set.
pub proof fn lemma_listing_set(l: Seq<usize>, s: Set<int>)
    requires
        lists_in_order(l, s),
    ensures
        seq_set(l) == s,
{
    assert(seq_set(l) =~= s) by {
        assert forall|x: int| #[trigger] seq_set(l).contains(x) == s.contains(x) by {
            if seq_set(l).contains(x) {
                let i = choose|i: int| 0 <= i < l.len() && l[i] == x;
                assert(s.contains(l[i] as int));
            }
        }
    }
}

/// Tries to build, inside `graph`, a decomposition of `subset` whose separators have at most
/// `k` vertices, keeping the vertices of `w` together: a set of at most `4k` vertices becomes a
/// clique; a larger one is split by a separator of `subset` around `w` plus enough vertices
/// to make `3k + 2`, the two sides are decomposed, and `w` with the separator becomes a clique.
/// `max_bag` grows to the largest clique made. Returns whether every separator needed was
/// found.
#[verifier::spinoff_prover]
#[verifier::rlimit(80)]
fn treewidth_recursive_bitset(graph: &mut bitset::Graph, subset: &BitSet, w: &BitSet, k: usize, max_bag: &mut usize) -> (r: bool)
    requires
        old(graph).wf(),
        16 * old(graph)@.len() * old(graph)@.len() + 16 <= usize::MAX,
        2 * old(graph)@.len() + 4 < i32::MAX,
        shaped_for(*subset, old(graph)@.len() as int),
        shaped_for(*w, old(graph)@.len() as int),
        forall|x: int| #[trigger] subset@.contains(x) ==> x < old(graph)@.len(),
        w@.subset_of(subset@),
        1 <= k <= old(graph)@.len(),
        *old(max_bag) <= old(graph)@.len(),
    ensures
        final(graph).wf(),
        final(graph)@.len() == old(graph)@.len(),
        *old(max_bag) <= *final(max_bag) <= old(graph)@.len(),
        subset@.len() <= 4 * k ==> r,
        r && subset@.len() >= 1 ==> *final(max_bag) >= 1,
        exists|tr: DecompTrace|
            #![trigger valid_trace(old(graph)@, subset@, w@, k as int, *old(max_bag) as int, tr)]
            valid_trace(old(graph)@, subset@, w@, k as int, *old(max_bag) as int, tr) && outcome(
                old(graph)@,
                subset@,
                w@,
                *old(max_bag) as int,
                tr,
            ) == (r, final(graph)@, *final(max_bag) as int),
    decreases subset@.len(),
{
    let ghost g0 = graph@;
    let ghost mb_start = *max_bag as int;
    let ghost n = graph@.len() as int;
    proof {
        graph.lemma_wf();
        lemma_small_n(n);
        lemma_nodes_fit(n);
        lemma_multiples_fit(n);
        subset.lemma_view_finite();
        lemma_vertex_set_len(subset@, n);
    }
    let size = subset.len();
    if size <= 4 * k {
        let vertices = subset.to_vec();
        proof {
            assert forall|a: int| 0 <= a < vertices@.len() implies #[trigger] vertices@[a] < graph@.len() by {
                assert(subset@.contains(vertices@[a] as int));
            }
        }
        add_clique(graph, &vertices);
        if size > *max_bag {
            *max_bag = size;
        }
        proof {
            lemma_listing_set(vertices@, subset@);
            let tr = DecompTrace::Bag;
            assert(valid_trace(g0, subset@, w@, k as int, mb_start, tr));
            assert(outcome(g0, subset@, w@, mb_start, tr) == (true, graph@, *max_bag as int));
        }
        return true;
    }
    let mut w_bis = w.duplicate();
    let members = subset.to_vec();
    let mut t: usize = 0;
    while t < members.len()
        invariant
            n * n <= usize::MAX,
            shaped_for(*w, n),
            shaped_for(w_bis, n),
            lists_in_order(members@, subset@),
            forall|x: int| #[trigger] subset@.contains(x) ==> x < n,
            w@.subset_of(subset@),
            w_bis@.subset_of(subset@),
            k <= n,
            4 * n + 2 <= usize::MAX,
            t <= members@.len(),
            w_bis@ == grown(members@, w@, 3 * k + 2, t as int),
            w@.finite(),
        ensures
            w_bis@ == grown(members@, w@, 3 * k + 2, members@.len() as int),
            shaped_for(w_bis, n),
            w_bis@.subset_of(subset@),
        decreases members@.len() - t,
    {
        proof {
            w_bis.lemma_view_finite();
            lemma_small_n(n);
            assert(subset@.contains(members@[t as int] as int));
        }
        if w_bis.len() >= 3 * k + 2 {
            proof {
                lemma_grown_stable(members@, w@, 3 * k + 2, t as int, members@.len() as int);
            }
            break;
        }
        let u = members[t];
        if !w.contains(u) {
            w_bis.insert(u);
        }
        t = t + 1;
    }
    proof {
        crate::treewidth::exact::orders::lemma_sorted_list_exists(subset@, n);
        crate::treewidth::exact::lemma_sorted_unique(members@, sorted_list(subset@), subset@);
    }
    let ghost wb = w_bis@;
    let found = two_third_vertex_separator_bitset(graph, subset, &w_bis, k);
    let separator = match found {
        Some(separator) => separator,
        None => {
            proof {
                let tr = DecompTrace::NoSeparator;
                assert(no_separator(g0, subset@, wb, k as int));
                assert(valid_trace(g0, subset@, w@, k as int, mb_start, tr));
            }
            return false;
        },
    };
    proof {
        assert(separator_found(g0, subset@, wb, k as int, separator));
    }
    proof {
        lemma_small_n(n);
        lemma_shaped_same_variant(separator.sep, separator.c1, n);
    }
    let mut w1 = separator.sep.duplicate();
    let c1_members = separator.c1.to_vec();
    let mut t: usize = 0;
    while t < c1_members.len()
        invariant
            n * n <= usize::MAX,
            shaped_for(*w, n),
            shaped_for(w1, n),
            lists_in_order(c1_members@, separator.c1@),
            splits(separator, subset@, n),
            forall|x: int| #[trigger] subset@.contains(x) ==> x < n,
            w@.subset_of(subset@),
            w1@.subset_of(separator.sep@.union(separator.c1@)),
            t <= c1_members@.len(),
            forall|x: int|
                #[trigger] w1@.contains(x) <==> (separator.sep@.contains(x) || (w@.contains(x) && exists|j: int|
                    0 <= j < t && c1_members@[j] as int == x)),
        decreases c1_members@.len() - t,
    {
        let v = c1_members[t];
        proof {
            assert(separator.c1@.contains(v as int));
            assert(subset@.contains(v as int));
            lemma_small_n(n);
        }
        if w.contains(v) {
            w1.insert(v);
        }
        proof {
            assert forall|x: int|
                #[trigger] w1@.contains(x) <==> (separator.sep@.contains(x) || (w@.contains(x) && exists|j: int|
                    0 <= j < t + 1 && c1_members@[j] as int == x)) by {
                if x == v as int && w@.contains(x) {
                    assert(c1_members@[t as int] as int == x);
                }
            }
        }
        t = t + 1;
    }
    proof {
        assert(w1@ =~= separator.sep@.union(w@.intersect(separator.c1@))) by {
            assert forall|x: int| #[trigger] w1@.contains(x) == separator.sep@.union(w@.intersect(separator.c1@)).contains(x) by {
                if separator.c1@.contains(x) && w@.contains(x) {
                    let j = choose|j: int| 0 <= j < c1_members@.len() && c1_members@[j] == x;
                }
            }
        }
    }
    let subset1 = separator.sep.union(&separator.c1);
    proof {
        assert(subset1@ =~= separator.sep@.union(separator.c1@));
        assert(subset1@.subset_of(subset@));
        separator.c2.lemma_view_finite();
        separator.sep.lemma_view_finite();
        separator.c1.lemma_view_finite();
        vstd::set_lib::lemma_set_disjoint_lens(subset1@, separator.c2@);
        assert(subset1@ + separator.c2@ =~= subset@);
        assert(subset1@.disjoint(separator.c2@));
        assert(subset1@.len() < subset@.len());
        assert(separator.c1@.subset_of(subset1@));
        vstd::set_lib::lemma_len_subset(separator.c1@, subset1@);
    }
    let ghost s1 = subset1@;
    let ghost w1v = w1@;
    let ok1 = treewidth_recursive_bitset(graph, &subset1, &w1, k, max_bag);
    let ghost tr1 = choose|tr: DecompTrace|
        valid_trace(g0, s1, w1v, k as int, mb_start, tr) && outcome(g0, s1, w1v, mb_start, tr) == (ok1, graph@, *max_bag as int);
    let ghost g1 = graph@;
    let ghost mb1 = *max_bag as int;
    if !ok1 {
        proof {
            let tr = DecompTrace::Split(separator, Box::new(tr1), Box::new(DecompTrace::Bag));
            assert(valid_trace(g0, subset@, w@, k as int, mb_start, tr));
            assert(outcome(g0, subset@, w@, mb_start, tr) == (false, graph@, *max_bag as int));
        }
        return false;
    }
    proof {
        lemma_shaped_same_variant(separator.sep, separator.c2, n);
    }
    let mut w2 = separator.sep.duplicate();
    let c2_members = separator.c2.to_vec();
    let mut t: usize = 0;
    while t < c2_members.len()
        invariant
            n * n <= usize::MAX,
            shaped_for(*w, n),
            shaped_for(w2, n),
            lists_in_order(c2_members@, separator.c2@),
            splits(separator, subset@, n),
            forall|x: int| #[trigger] subset@.contains(x) ==> x < n,
            w@.subset_of(subset@),
            w2@.subset_of(separator.sep@.union(separator.c2@)),
            t <= c2_members@.len(),
            forall|x: int|
                #[trigger] w2@.contains(x) <==> (separator.sep@.contains(x) || (w@.contains(x) && exists|j: int|
                    0 <= j < t && c2_members@[j] as int == x)),
        decreases c2_members@.len() - t,
    {
        let v = c2_members[t];
        proof {
            assert(separator.c2@.contains(v as int));
            assert(subset@.contains(v as int));
            lemma_small_n(n);
        }
        if w.contains(v) {
            w2.insert(v);
        }
        proof {
            assert forall|x: int|
                #[trigger] w2@.contains(x) <==> (separator.sep@.contains(x) || (w@.contains(x) && exists|j: int|
                    0 <= j < t + 1 && c2_members@[j] as int == x)) by {
                if x == v as int && w@.contains(x) {
                    assert(c2_members@[t as int] as int == x);
                }
            }
        }
        t = t + 1;
    }
    proof {
        assert(w2@ =~= separator.sep@.union(w@.intersect(separator.c2@))) by {
            assert forall|x: int| #[trigger] w2@.contains(x) == separator.sep@.union(w@.intersect(separator.c2@)).contains(x) by {
                if separator.c2@.contains(x) && w@.contains(x) {
                    let j = choose|j: int| 0 <= j < c2_members@.len() && c2_members@[j] == x;
                }
            }
        }
    }
    let subset2 = separator.sep.union(&separator.c2);
    proof {
        assert(subset2@ =~= separator.sep@.union(separator.c2@));
        assert(subset2@.subset_of(subset@));
        vstd::set_lib::lemma_set_disjoint_lens(subset2@, separator.c1@);
        assert(subset2@ + separator.c1@ =~= subset@);
        assert(subset2@.disjoint(separator.c1@));
        assert(subset2@.len() < subset@.len());
    }
    let ghost s2 = subset2@;
    let ghost w2v = w2@;
    let ok2 = treewidth_recursive_bitset(graph, &subset2, &w2, k, max_bag);
    let ghost tr2 = choose|tr: DecompTrace|
        valid_trace(g1, s2, w2v, k as int, mb1, tr) && outcome(g1, s2, w2v, mb1, tr) == (ok2, graph@, *max_bag as int);
    if !ok2 {
        proof {
            let tr = DecompTrace::Split(separator, Box::new(tr1), Box::new(tr2));
            assert(valid_trace(g0, subset@, w@, k as int, mb_start, tr));
            assert(outcome(g0, subset@, w@, mb_start, tr) == (false, graph@, *max_bag as int));
        }
        return false;
    }
    let ghost g3 = graph@;
    let ghost mb3 = *max_bag as int;
    proof {
        lemma_shaped_same_variant(*w, separator.sep, n);
    }
    let clique = w.union(&separator.sep);
    proof {
        assert(clique@ =~= w@.union(separator.sep@));
        assert forall|x: int| #[trigger] clique@.contains(x) implies 0 <= x < n by {
            if w@.contains(x) {
                assert(subset@.contains(x));
            } else {
                assert(separator.sep@.contains(x));
                assert(subset@.contains(x));
            }
        }
        clique.lemma_view_finite();
        lemma_vertex_set_len(clique@, n);
        graph.lemma_wf();
    }
    let clique_vertices = clique.to_vec();
    proof {
        assert forall|a: int| 0 <= a < clique_vertices@.len() implies #[trigger] clique_vertices@[a] < graph@.len() by {
            assert(clique@.contains(clique_vertices@[a] as int));
        }
    }
    add_clique(graph, &clique_vertices);
    let clique_len = clique.len();
    if clique_len > *max_bag {
        *max_bag = clique_len;
    }
    proof {
        lemma_listing_set(clique_vertices@, clique@);
        let tr = DecompTrace::Split(separator, Box::new(tr1), Box::new(tr2));
        assert(valid_trace(g0, subset@, w@, k as int, mb_start, tr));
        assert(outcome(g0, subset@, w@, mb_start, tr) == (true, graph@, *max_bag as int));
    }
    true
}

/// The width of the decomposition built with the smallest `k` for which every separator
/// needed is found (with `k` equal to the number of vertices, none is): the largest clique
/// made, minus one.
pub(crate) fn approx_treewidth_generic(graph: &graph::Graph) -> (r: usize)
    requires
        graph.wf(),
        graph@.len() >= 1,
        16 * graph@.len() * graph@.len() + 16 <= usize::MAX,
        2 * graph@.len() + 4 < i32::MAX,
    ensures
        r < graph@.len(),
        exists|trs: Seq<DecompTrace>, tr: DecompTrace|
            #![trigger approx_reports(graph@, graph is BitSet, trs, tr, r as int)]
            approx_reports(graph@, graph is BitSet, trs, tr, r as int),
{
    let (g, keep_bag) = match graph {
        graph::Graph::AdjList(g) => (bitset::Graph::from_adjlist(g), false),
        graph::Graph::BitSet(g) => (g.duplicate(), true),
    };
    proof {
        assert(g@ == graph@);
    }
    proof {
        g.lemma_wf();
    }
    let n = g.n();
    proof {
        lemma_small_n(n as int);
    }
    let subset = BitSet::full(n);
    let empty = BitSet::new(n);
    let mut max_bag: usize = 0;
    let mut k: usize = 1;
    let ghost mut trs: Seq<DecompTrace> = Seq::empty();
    proof {
        assert(keep_bag == graph is BitSet);
        assert(subset@ =~= all_vertices(n as int));
    }
    while k <= n
        invariant
            keep_bag == graph is BitSet,
            g@ == graph@,
            subset@ == all_vertices(n as int),
            runs_failed(graph@, keep_bag, trs),
            runs_state(graph@, keep_bag, trs) == (k as int, max_bag as int),
            k <= n,
            g.wf(),
            n == g@.len(),
            n == graph@.len(),
            n >= 1,
            2 * n + 4 < i32::MAX,
            16 * n * n + 16 <= usize::MAX,
            shaped_for(subset, n as int),
            shaped_for(empty, n as int),
            subset@ == Set::new(|i: int| 0 <= i < n),
            empty@ == Set::<int>::empty(),
            1 <= k <= n + 1,
            max_bag <= n,
        decreases n + 1 - k,
    {
        let mut triangulated = g.duplicate();
        if !keep_bag {
            max_bag = 0;
        }
        proof {
            vstd::set_lib::lemma_int_range(0, n as int);
            assert(subset@ =~= vstd::set_lib::set_int_range(0, n as int));
        }
        let ghost mb0 = max_bag as int;
        let done = treewidth_recursive_bitset(&mut triangulated, &subset, &empty, k, &mut max_bag);
        proof {
            assert(subset@.len() == n);
        }
        let ghost tr = choose|tr: DecompTrace|
            valid_trace(graph@, subset@, empty@, k as int, mb0, tr) && outcome(graph@, subset@, empty@, mb0, tr) == (
                done,
                triangulated@,
                max_bag as int,
            );
        if done {
            proof {
                assert(approx_reports(graph@, keep_bag, trs, tr, max_bag - 1));
            }
            return max_bag - 1;
        }
        proof {
            let old_trs = trs;
            trs = trs.push(tr);
            assert(trs.drop_last() =~= old_trs);
            assert(trs.last() == tr);
        }
        proof {
            assert(k < n);
        }
        k = k + 1;
    }
    0
}

} // verus!
