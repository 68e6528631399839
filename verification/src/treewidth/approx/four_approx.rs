//! The 4-approximation: separators that split a set of vertices two thirds to one third.

use vstd::prelude::*;
use crate::graph;
use crate::graph::bitset;
use crate::graph::bitset::{lemma_small_n, shaped_for};
use crate::graph::model::Nbrs;
use crate::treewidth::approx::{
    add_arc, approx_reports, approx_treewidth_generic, arcs_below, arcs_of, base_arcs, build_base_flow_network_bitset, caps_of,
    copy_arcs, copy_caps, lemma_multiples_fit, lemma_nodes_fit, lemma_vertex_set_len, maps_positions,
    minimum_vertex_separator_bitset, separator_from, splits, vin, vout, DecompTrace, SeparatorBitSet,
};
use crate::treewidth::exact::{
    combinations_of, combos, lemma_combos_props, lemma_listing_len, lemma_sorted_unique, sorted_list, vec_views,
};
use crate::treewidth::exact::orders::lemma_sorted_list_exists;
use crate::utils::max_flow::{arc_count, flow_outcome, init_caps, init_heads, total};
use crate::utils::bitset::{lists_in_order, BitSet};

verus! {

/// The width the 4-approximation finds: at most the number of vertices minus one.
pub fn approx_treewidth(graph: &graph::Graph) -> (r: usize)
    requires
        graph.wf(),
        graph@.len() >= 1,
        16 * graph@.len() * graph@.len() + 16 <= usize::MAX,
        2 * graph@.len() + 4 < i32::MAX,
    ensures
        r < graph@.len(),
        exists|trs: Seq<DecompTrace>, tr: DecompTrace|
            #![trigger approx_reports(graph@, graph is BitSet, trs, tr, r as int)]
            approx_reports(graph@, graph is BitSet, trs, tr, r as int),
{
    approx_treewidth_generic(graph)
}

/// Whether every listed vertex lies in `s`.
pub open spec fn listed_in(members: Seq<usize>, s: Set<int>) -> bool {
    forall|t: int| 0 <= t < members.len() ==> s.contains(#[trigger] members[t] as int)
}

/// The two arcs between the exit node of each of two vertices and the entry node of the other.
pub open spec fn pair_arcs(node_map: Seq<usize>, a: usize, b: usize) -> Seq<(usize, usize)> {
    seq![
        ((2 * node_map[a as int] + 1) as usize, (2 * node_map[b as int]) as usize),
        ((2 * node_map[b as int] + 1) as usize, (2 * node_map[a as int]) as usize),
    ]
}

/// The arcs between the member at position `i` and those at positions `i + 1 .. j`, in order.
pub open spec fn row_arcs(members: Seq<usize>, node_map: Seq<usize>, i: int, j: int) -> Seq<(usize, usize)>
    decreases j - i,
{
    if j <= i + 1 {
        Seq::empty()
    } else {
        row_arcs(members, node_map, i, j - 1) + pair_arcs(node_map, members[i], members[j - 1])
    }
}

/// The arcs between every two members, the first of which is among the first `i`, in order.
pub open spec fn clique_arcs(members: Seq<usize>, node_map: Seq<usize>, i: int) -> Seq<(usize, usize)>
    decreases i,
{
    if i <= 0 {
        Seq::empty()
    } else {
        clique_arcs(members, node_map, i - 1) + row_arcs(members, node_map, i - 1, members.len() as int)
    }
}

/// The arcs joining the first `t` members to `hub`: into their entry node from `hub` when
/// `from_hub`, from their exit node into `hub` otherwise.
pub open spec fn hub_arcs(members: Seq<usize>, node_map: Seq<usize>, hub: usize, from_hub: bool, t: int) -> Seq<(usize, usize)>
    decreases t,
{
    if t <= 0 {
        Seq::empty()
    } else {
        hub_arcs(members, node_map, hub, from_hub, t - 1) + seq![
            if from_hub {
                (hub, (2 * node_map[members[t - 1] as int]) as usize)
            } else {
                ((2 * node_map[members[t - 1] as int] + 1) as usize, hub)
            },
        ]
    }
}

/// Makes the listed vertices a clique of arcs of capacity `inf` in the flow network, and joins
/// each to `hub`: from `hub` into the vertex when `from_hub`, from the vertex into `hub`
/// otherwise.
#[verifier::spinoff_prover]
fn add_clique_arcs(
    edges: &mut Vec<(usize, usize)>,
    capacities: &mut Vec<usize>,
    members: &Vec<usize>,
    node_map: &Vec<usize>,
    subset_vec: &Vec<usize>,
    subset: Ghost<Set<int>>,
    hub: usize,
    from_hub: bool,
    inf: usize,
    len: usize,
)
    requires
        old(edges)@.len() == old(capacities)@.len(),
        arcs_below(old(edges)@, 2 * len + 4),
        hub < 2 * len + 4,
        2 * len + 8 <= usize::MAX,
        len == subset_vec@.len(),
        lists_in_order(subset_vec@, subset@),
        maps_positions(node_map@, subset_vec@),
        forall|x: int| #[trigger] subset@.contains(x) ==> x < node_map@.len(),
        listed_in(members@, subset@),
        old(edges)@.len() + 2 * members@.len() * members@.len() + members@.len() <= usize::MAX,
    ensures
        final(edges)@.len() == final(capacities)@.len(),
        arcs_below(final(edges)@, 2 * len + 4),
        final(edges)@.len() <= old(edges)@.len() + 2 * members@.len() * members@.len() + members@.len(),
        final(edges)@ == old(edges)@ + clique_arcs(members@, node_map@, members@.len() as int) + hub_arcs(
            members@,
            node_map@,
            hub,
            from_hub,
            members@.len() as int,
        ),
        final(capacities)@.subrange(0, old(capacities)@.len() as int) == old(capacities)@,
        forall|e: int| old(capacities)@.len() <= e < final(capacities)@.len() ==> #[trigger] final(capacities)@[e] == inf,
{
    let m = members.len();
    let ghost start = edges@.len();
    let ghost e0 = edges@;
    let ghost c0 = capacities@;
    let mut i: usize = 0;
    while i < m
        invariant
            edges@.len() == capacities@.len(),
            arcs_below(edges@, 2 * len + 4),
            2 * len + 8 <= usize::MAX,
            len == subset_vec@.len(),
            lists_in_order(subset_vec@, subset@),
            maps_positions(node_map@, subset_vec@),
            forall|x: int| #[trigger] subset@.contains(x) ==> x < node_map@.len(),
            listed_in(members@, subset@),
            m == members@.len(),
            i <= m,
            edges@.len() <= start + 2 * m * i,
            start + 2 * m * m + m <= usize::MAX,
            start == e0.len(),
            c0.len() == start,
            edges@ == e0 + clique_arcs(members@, node_map@, i as int),
            capacities@.subrange(0, start as int) == c0,
            forall|e: int| start <= e < capacities@.len() ==> #[trigger] capacities@[e] == inf,
        decreases m - i,
    {
        let mut j: usize = i + 1;
        let ghost row_start = edges@.len();
        let ghost before_row = edges@;
        while j < m
            invariant
                edges@.len() == capacities@.len(),
                arcs_below(edges@, 2 * len + 4),
                2 * len + 8 <= usize::MAX,
                len == subset_vec@.len(),
                lists_in_order(subset_vec@, subset@),
                maps_positions(node_map@, subset_vec@),
                forall|x: int| #[trigger] subset@.contains(x) ==> x < node_map@.len(),
                listed_in(members@, subset@),
                m == members@.len(),
                i < j <= m,
                edges@.len() <= row_start + 2 * (j - i - 1),
                row_start <= start + 2 * m * i,
                start + 2 * m * m + m <= usize::MAX,
                start == e0.len(),
                c0.len() == start,
                before_row == e0 + clique_arcs(members@, node_map@, i as int),
                edges@ == before_row + row_arcs(members@, node_map@, i as int, j as int),
                capacities@.subrange(0, start as int) == c0,
                forall|e: int| start <= e < capacities@.len() ==> #[trigger] capacities@[e] == inf,
            decreases m - j,
        {
            let a = members[i];
            let b = members[j];
            proof {
                assert(subset@.contains(members@[i as int] as int));
                assert(subset@.contains(members@[j as int] as int));
                let pa = choose|p: int| 0 <= p < subset_vec@.len() && subset_vec@[p] == a as int;
                let pb = choose|p: int| 0 <= p < subset_vec@.len() && subset_vec@[p] == b as int;
                assert(node_map@[subset_vec@[pa] as int] == pa);
                assert(node_map@[subset_vec@[pb] as int] == pb);
                assert(2 * m * i + 2 * (j - i - 1) + 2 <= 2 * m * m) by (nonlinear_arith)
                    requires
                        i < j < m,
                ;
            }
            let ghost e_before = edges@;
            let ghost c_before = capacities@;
            let u = node_map[a];
            let v = node_map[b];
            let ou = vout(u);
            let iv = vin(v);
            add_arc(edges, capacities, ou, iv, inf);
            let ov = vout(v);
            let iu = vin(u);
            add_arc(edges, capacities, ov, iu, inf);
            proof {
                assert(row_arcs(members@, node_map@, i as int, j + 1) == row_arcs(members@, node_map@, i as int, j as int)
                    + pair_arcs(node_map@, a, b));
                assert(edges@ =~= before_row + row_arcs(members@, node_map@, i as int, j + 1));
                assert(capacities@.subrange(0, start as int) =~= c_before.subrange(0, start as int));
            }
            j = j + 1;
        }
        proof {
            assert(edges@ =~= e0 + clique_arcs(members@, node_map@, i + 1));
            assert(2 * m * i + 2 * (m - i - 1) <= 2 * m * (i + 1)) by (nonlinear_arith)
                requires
                    i < m,
            ;
        }
        i = i + 1;
    }
    let ghost after_clique = edges@;
    let mut t: usize = 0;
    while t < m
        invariant
            edges@.len() == capacities@.len(),
            arcs_below(edges@, 2 * len + 4),
            hub < 2 * len + 4,
            2 * len + 8 <= usize::MAX,
            len == subset_vec@.len(),
            lists_in_order(subset_vec@, subset@),
            maps_positions(node_map@, subset_vec@),
            forall|x: int| #[trigger] subset@.contains(x) ==> x < node_map@.len(),
            listed_in(members@, subset@),
            m == members@.len(),
            t <= m,
            edges@.len() <= start + 2 * m * m + t,
            start + 2 * m * m + m <= usize::MAX,
            start == e0.len(),
            c0.len() == start,
            after_clique == e0 + clique_arcs(members@, node_map@, m as int),
            edges@ == after_clique + hub_arcs(members@, node_map@, hub, from_hub, t as int),
            capacities@.subrange(0, start as int) == c0,
            forall|e: int| start <= e < capacities@.len() ==> #[trigger] capacities@[e] == inf,
        decreases m - t,
    {
        let a = members[t];
        proof {
            assert(subset@.contains(members@[t as int] as int));
            let pa = choose|p: int| 0 <= p < subset_vec@.len() && subset_vec@[p] == a as int;
            assert(node_map@[subset_vec@[pa] as int] == pa);
        }
        let ghost c_before = capacities@;
        let u = node_map[a];
        if from_hub {
            let iu = vin(u);
            add_arc(edges, capacities, hub, iu, inf);
        } else {
            let ou = vout(u);
            add_arc(edges, capacities, ou, hub, inf);
        }
        proof {
            assert(edges@ =~= after_clique + hub_arcs(members@, node_map@, hub, from_hub, t + 1));
            assert(capacities@.subrange(0, start as int) =~= c_before.subrange(0, start as int));
        }
        t = t + 1;
    }
}

/// The entries of `l` among the first `t` that do not occur in `w1`, in order.
pub open spec fn without(l: Seq<usize>, w1: Seq<usize>, t: int) -> Seq<usize>
    decreases t,
{
    if t <= 0 {
        Seq::empty()
    } else {
        let r = without(l, w1, t - 1);
        if w1.contains(l[t - 1]) {
            r
        } else {
            r.push(l[t - 1])
        }
    }
}

/// The arcs of the flow network tried for the choice of `w1` and `w2`: those of `subset`'s
/// subgraph, then a clique on `w1` joined from the source's exit node `src_out`, then a clique on
/// `w2` joined into the sink's entry node `sink_in`.
pub open spec fn trial_arcs(
    g: Nbrs,
    subset: Set<int>,
    sv: Seq<usize>,
    nm: Seq<usize>,
    inf: usize,
    w1: Seq<usize>,
    w2: Seq<usize>,
    src_out: usize,
    sink_in: usize,
) -> Seq<(usize, usize)> {
    arcs_of(base_arcs(g, subset, sv, nm, inf, sv.len() as int)) + clique_arcs(w1, nm, w1.len() as int) + hub_arcs(
        w1,
        nm,
        src_out,
        true,
        w1.len() as int,
    ) + clique_arcs(w2, nm, w2.len() as int) + hub_arcs(w2, nm, sink_in, false, w2.len() as int)
}

/// The capacities of those arcs: those of the subgraph, then `inf` for every added arc.
pub open spec fn trial_caps(g: Nbrs, subset: Set<int>, sv: Seq<usize>, nm: Seq<usize>, inf: usize, m: int) -> Seq<usize> {
    let base = caps_of(base_arcs(g, subset, sv, nm, inf, sv.len() as int));
    base + Seq::new((m - base.len()) as nat, |e: int| inf)
}

/// Whether a run of the bounded flow on the network may end without a separator that passes:
/// the flow reaches `k + 1`, or the separator read off the residual network has more than `k`
/// vertices or leaves a part empty.
pub open spec fn trial_fails(
    edges: Seq<(usize, usize)>,
    caps: Seq<usize>,
    src_out: usize,
    sink_in: usize,
    k: int,
    sv: Seq<usize>,
    subset: Set<int>,
    n: int,
) -> bool {
    exists|fl: Seq<(Seq<int>, int)>, ro: Option<Vec<bool>>|
        #![trigger flow_outcome(
            init_heads(edges, arc_count(edges, caps)),
            init_caps(caps, arc_count(edges, caps)),
            src_out as int,
            sink_in as int,
            k + 1,
            total(fl),
            fl,
            ro,
        )]
        flow_outcome(
            init_heads(edges, arc_count(edges, caps)),
            init_caps(caps, arc_count(edges, caps)),
            src_out as int,
            sink_in as int,
            k + 1,
            total(fl),
            fl,
            ro,
        ) && (ro matches Some(reach) ==> exists|sp: SeparatorBitSet|
            #[trigger] separator_from(reach@, sp, sv) && splits(sp, subset, n) && !(sp.sep@.len() <= k && sp.c1@.len() > 0
                && sp.c2@.len() > 0))
}

/// Whether a run of the bounded flow on the network may end with the separator `sep`.
pub open spec fn trial_gives(
    edges: Seq<(usize, usize)>,
    caps: Seq<usize>,
    src_out: usize,
    sink_in: usize,
    k: int,
    sv: Seq<usize>,
    sep: SeparatorBitSet,
) -> bool {
    exists|fl: Seq<(Seq<int>, int)>, reach: Vec<bool>|
        #![trigger flow_outcome(
            init_heads(edges, arc_count(edges, caps)),
            init_caps(caps, arc_count(edges, caps)),
            src_out as int,
            sink_in as int,
            k + 1,
            total(fl),
            fl,
            Some(reach),
        )]
        flow_outcome(
            init_heads(edges, arc_count(edges, caps)),
            init_caps(caps, arc_count(edges, caps)),
            src_out as int,
            sink_in as int,
            k + 1,
            total(fl),
            fl,
            Some(reach),
        ) && separator_from(reach@, sep, sv)
}

/// The `b`-th choice of `W2` for the `a`-th choice of `W1`.
pub open spec fn second_choices(wv: Seq<usize>, w1s: Seq<Seq<usize>>, a: int, size2: nat) -> Seq<Seq<usize>> {
    combos(without(wv, w1s[a], wv.len() as int), size2)
}

/// Whether the trial for the `a`-th `W1` and `b`-th `W2` fails, the network numbered by `nm`.
pub open spec fn choice_fails(
    g: Nbrs,
    subset: Set<int>,
    w: Set<int>,
    nm: Seq<usize>,
    k: int,
    a: int,
    b: int,
) -> bool {
    let sv = sorted_list(subset);
    let wv = sorted_list(w);
    let len = sv.len() as int;
    let inf = (len + 2) as usize;
    let w1s = combos(wv, ((w.len() + 1) / 2) as nat);
    let w2 = second_choices(wv, w1s, a, ((w.len() + 2) / 3) as nat)[b];
    let edges = trial_arcs(g, subset, sv, nm, inf, w1s[a], w2, (2 * len + 1) as usize, (2 * len + 2) as usize);
    trial_fails(edges, trial_caps(g, subset, sv, nm, inf, edges.len() as int), (2 * len + 1) as usize, (2 * len + 2) as usize, k, sv, subset, g.len() as int)
}

/// Whether the trial for the `a`-th `W1` and `b`-th `W2` gives `sep`.
pub open spec fn choice_gives(
    g: Nbrs,
    subset: Set<int>,
    w: Set<int>,
    nm: Seq<usize>,
    k: int,
    a: int,
    b: int,
    sep: SeparatorBitSet,
) -> bool {
    let sv = sorted_list(subset);
    let wv = sorted_list(w);
    let len = sv.len() as int;
    let inf = (len + 2) as usize;
    let w1s = combos(wv, ((w.len() + 1) / 2) as nat);
    let w2 = second_choices(wv, w1s, a, ((w.len() + 2) / 3) as nat)[b];
    let edges = trial_arcs(g, subset, sv, nm, inf, w1s[a], w2, (2 * len + 1) as usize, (2 * len + 2) as usize);
    trial_gives(edges, trial_caps(g, subset, sv, nm, inf, edges.len() as int), (2 * len + 1) as usize, (2 * len + 2) as usize, k, sv, sep)
}

/// Whether `(a, b)` is a choice of `W1` and `W2`.
pub open spec fn is_choice(w: Set<int>, a: int, b: int) -> bool {
    let wv = sorted_list(w);
    let w1s = combos(wv, ((w.len() + 1) / 2) as nat);
    0 <= a < w1s.len() && 0 <= b < second_choices(wv, w1s, a, ((w.len() + 2) / 3) as nat).len()
}

/// Whether the choice `(a2, b2)` comes before `(a, b)`.
pub open spec fn choice_before(a2: int, b2: int, a: int, b: int) -> bool {
    a2 < a || (a2 == a && b2 < b)
}

/// Searches a separator of at most `k` vertices of `subset` that leaves both parts non-empty:
/// for every way to take about half of `w` as `W1` and about a third of the rest as `W2`, it
/// looks for a minimum separator between `W1` and `W2`. `None` when no such choice gives one.
pub(crate) fn two_third_vertex_separator_bitset(graph: &bitset::Graph, subset: &BitSet, w: &BitSet, k: usize) -> (r: Option<
    SeparatorBitSet,
>)
    requires
        graph.wf(),
        shaped_for(*subset, graph@.len() as int),
        shaped_for(*w, graph@.len() as int),
        forall|x: int| #[trigger] subset@.contains(x) ==> x < graph@.len(),
        w@.subset_of(subset@),
        k <= graph@.len(),
        16 * graph@.len() * graph@.len() + 16 <= usize::MAX,
        2 * graph@.len() + 4 < i32::MAX,
    ensures
        r matches Some(sep) ==> splits(sep, subset@, graph@.len() as int) && sep.sep@.len() <= k
            && sep.c1@.len() > 0 && sep.c2@.len() > 0,
        exists|nm: Seq<usize>|
            #![trigger maps_positions(nm, sorted_list(subset@))]
            nm.len() == graph@.len() && maps_positions(nm, sorted_list(subset@)) && (r is None ==> forall|a: int, b: int|
                is_choice(w@, a, b) ==> #[trigger] choice_fails(graph@, subset@, w@, nm, k as int, a, b)) && (r matches Some(
                sep,
            ) ==> exists|a: int, b: int|
                is_choice(w@, a, b) && #[trigger] choice_gives(graph@, subset@, w@, nm, k as int, a, b, sep) && forall|
                    a2: int,
                    b2: int,
                |
                    is_choice(w@, a2, b2) && choice_before(a2, b2, a, b) ==> #[trigger] choice_fails(
                        graph@,
                        subset@,
                        w@,
                        nm,
                        k as int,
                        a2,
                        b2,
                    )),
{
    proof {
        graph.lemma_wf();
    }
    let n = graph.n();
    let ghost nn = n as int;
    let ghost sq = nn * nn;
    proof {
        lemma_small_n(nn);
        lemma_nodes_fit(nn);
        subset.lemma_view_finite();
        lemma_vertex_set_len(subset@, nn);
        assert(16 * nn * nn + 16 <= usize::MAX);
        lemma_multiples_fit(nn);
        assert(16 * sq + 16 <= usize::MAX && nn <= sq + 1 && sq <= usize::MAX) by (nonlinear_arith)
            requires
                sq == nn * nn,
                16 * nn * nn + 16 <= usize::MAX,
                nn >= 0,
        ;
        assert forall|x: int| #[trigger] w@.contains(x) implies 0 <= x < nn by {
            assert(subset@.contains(x));
        }
        w.lemma_view_finite();
        lemma_vertex_set_len(w@, nn);
    }
    let size_w1 = (w.len() + 1) / 2;
    let size_w2 = (w.len() + 2) / 3;
    let len = subset.len();
    let inf = len + 2;
    let w_vec = w.to_vec();
    let subset_vec = subset.to_vec();
    proof {
        lemma_listing_len(subset_vec@, subset@);
        lemma_listing_len(w_vec@, w@);
        lemma_sorted_list_exists(subset@, nn);
        lemma_sorted_unique(subset_vec@, sorted_list(subset@), subset@);
        lemma_sorted_list_exists(w@, nn);
        lemma_sorted_unique(w_vec@, sorted_list(w@), w@);
    }
    let mut node_map: Vec<usize> = Vec::new();
    while node_map.len() < n
        invariant
            node_map@.len() <= n,
        decreases n - node_map@.len(),
    {
        node_map.push(0);
    }
    let mut i: usize = 0;
    while i < len
        invariant
            len == subset_vec@.len(),
            lists_in_order(subset_vec@, subset@),
            forall|x: int| #[trigger] subset@.contains(x) ==> x < n,
            node_map@.len() == n,
            i <= len,
            forall|j: int| 0 <= j < i ==> #[trigger] node_map@[subset_vec@[j] as int] == j,
        decreases len - i,
    {
        let u = subset_vec[i];
        proof {
            assert(subset@.contains(subset_vec@[i as int] as int));
            assert forall|j: int| 0 <= j < i implies subset_vec@[j] != u by {
                assert(subset_vec@[j] < subset_vec@[i as int]);
            }
        }
        node_map.set(u, i);
        i = i + 1;
    }
    let source = len;
    let sink = len + 1;
    let (base_edges, base_cap) = build_base_flow_network_bitset(graph, subset, &subset_vec, &node_map, inf);
    let src_out = vout(source);
    let sink_in = vin(sink);
    proof {
        assert(len * nn <= sq) by (nonlinear_arith)
            requires
                len <= nn,
                0 <= nn,
                sq == nn * nn,
        ;
        assert forall|e: int| 0 <= e < base_edges@.len() implies #[trigger] base_edges@[e].0 < 2 * len + 4 && base_edges@[e].1 < 2 * len + 4 by {
            assert(arcs_below(base_edges@, 2 * len as int));
        }
    }
    let w1_list = combinations_of(w_vec.clone(), size_w1);
    let ghost w1s = combos(w_vec@, size_w1 as nat);
    proof {
        assert(vec_views(w1_list@).len() == w1_list@.len());
    }
    let mut a: usize = 0;
    while a < w1_list.len()
        invariant
            graph.wf(),
            n == graph@.len(),
            nn == n,
            16 * nn * nn + 16 <= usize::MAX,
            nn * nn <= usize::MAX,
            2 * nn + 8 <= usize::MAX,
            shaped_for(*subset, nn),
            forall|x: int| #[trigger] subset@.contains(x) ==> x < n,
            w@.subset_of(subset@),
            w@.len() <= nn,
            2 * nn + 4 < i32::MAX,
            w_vec@.len() == w@.len(),
            size_w1 == (w@.len() + 1) / 2,
            size_w2 == (w@.len() + 2) / 3,
            k <= n,
            len == subset_vec@.len(),
            len <= n,
            lists_in_order(subset_vec@, subset@),
            lists_in_order(w_vec@, w@),
            node_map@.len() == n,
            maps_positions(node_map@, subset_vec@),
            src_out == 2 * len + 1,
            sink_in == 2 * len + 2,
            base_edges@.len() == base_cap@.len(),
            arcs_below(base_edges@, 2 * len + 4),
            base_edges@.len() <= sq,
            sq == nn * nn,
            16 * sq + 16 <= usize::MAX,
            nn <= sq + 1,
            w1s == combos(w_vec@, size_w1 as nat),
            vec_views(w1_list@) == w1s,
            w1s.len() == w1_list@.len(),
            a <= w1_list@.len(),
            subset_vec@ == sorted_list(subset@),
            w_vec@ == sorted_list(w@),
            inf == len + 2,
            base_edges@ == arcs_of(base_arcs(graph@, subset@, subset_vec@, node_map@, inf, len as int)),
            base_cap@ == caps_of(base_arcs(graph@, subset@, subset_vec@, node_map@, inf, len as int)),
            forall|a2: int, b2: int|
                is_choice(w@, a2, b2) && a2 < a ==> #[trigger] choice_fails(graph@, subset@, w@, node_map@, k as int, a2, b2),
        decreases w1_list@.len() - a,
    {
        let w1 = &w1_list[a];
        proof {
            assert(vec_views(w1_list@)[a as int] == w1_list@[a as int]@);
            assert(w1s[a as int] == w1@);
            lemma_combos_props(w_vec@, size_w1 as nat, a as int);
            assert(listed_in(w1@, subset@)) by {
                assert forall|t: int| 0 <= t < w1@.len() implies subset@.contains(#[trigger] w1@[t] as int) by {
                    assert(w_vec@.contains(w1@[t]));
                    let j = choose|j: int| 0 <= j < w_vec@.len() && w_vec@[j] == w1@[t];
                    assert(w@.contains(w_vec@[j] as int));
                }
            }
            assert(w1@.len() == size_w1);
            assert(w1@.len() <= nn);
            lemma_small_n(nn);
        }
        let mut w1_set = BitSet::new(n);
        let mut t: usize = 0;
        while t < w1.len()
            invariant
                n * n <= usize::MAX,
                shaped_for(w1_set, n as int),
                listed_in(w1@, subset@),
                forall|x: int| #[trigger] subset@.contains(x) ==> x < n,
                t <= w1@.len(),
                forall|x: int| #[trigger] w1_set@.contains(x) <==> exists|j: int| 0 <= j < t && w1@[j] as int == x,
            decreases w1@.len() - t,
        {
            proof {
                assert(subset@.contains(w1@[t as int] as int));
                lemma_small_n(n as int);
            }
            w1_set.insert(w1[t]);
            proof {
                assert forall|x: int| #[trigger] w1_set@.contains(x) <==> exists|j: int| 0 <= j < t + 1 && w1@[j] as int == x by {
                    if x == w1@[t as int] as int {
                        assert(0 <= t < t + 1 && w1@[t as int] as int == x);
                    }
                }
            }
            t = t + 1;
        }
        let mut remaining: Vec<usize> = Vec::new();
        let mut t: usize = 0;
        while t < w_vec.len()
            invariant
                n * n <= usize::MAX,
                shaped_for(w1_set, n as int),
                lists_in_order(w_vec@, w@),
                w@.subset_of(subset@),
                forall|x: int| #[trigger] subset@.contains(x) ==> x < n,
                listed_in(remaining@, subset@),
                remaining@.len() <= t,
                t <= w_vec@.len(),
                forall|x: int| #[trigger] w1_set@.contains(x) <==> exists|j: int| 0 <= j < w1@.len() && w1@[j] as int == x,
                remaining@ == without(w_vec@, w1@, t as int),
            decreases w_vec@.len() - t,
        {
            let x = w_vec[t];
            proof {
                assert(w@.contains(w_vec@[t as int] as int));
                lemma_small_n(n as int);
                if w1@.contains(x) {
                    let j = choose|j: int| 0 <= j < w1@.len() && w1@[j] == x;
                    assert(w1_set@.contains(x as int));
                }
                if w1_set@.contains(x as int) {
                    let j = choose|j: int| 0 <= j < w1@.len() && w1@[j] as int == x as int;
                    assert(w1@[j] == x);
                }
            }
            if !w1_set.contains(x) {
                remaining.push(x);
                proof {
                    assert forall|q: int| 0 <= q < remaining@.len() implies subset@.contains(#[trigger] remaining@[q] as int) by {
                        if q < remaining@.len() - 1 {
                            assert(remaining@[q] == remaining@.drop_last()[q]);
                        }
                    }
                }
            }
            t = t + 1;
        }
        proof {
            lemma_vertex_set_len(w@, nn);
            assert(remaining@.len() <= nn);
        }
        let mut w1_edges = copy_arcs(&base_edges);
        let mut w1_cap = copy_caps(&base_cap);
        proof {
            assert(w1_edges@ == base_edges@);
            assert(w1_cap@ == base_cap@);
            assert(2 * w1@.len() * w1@.len() + w1@.len() <= 2 * sq + nn) by (nonlinear_arith)
                requires
                    w1@.len() <= nn,
                    sq == nn * nn,
            ;
        }
        add_clique_arcs(&mut w1_edges, &mut w1_cap, w1, &node_map, &subset_vec, Ghost(subset@), src_out, true, inf, len);
        proof {
            assert(remaining@ == without(w_vec@, w1@, w_vec@.len() as int));
        }
        let w2_list = combinations_of(remaining, size_w2);
        let ghost rem = remaining@;
        let ghost w2s = combos(rem, size_w2 as nat);
        proof {
            assert(vec_views(w2_list@).len() == w2_list@.len());
        }
        let mut b: usize = 0;
        while b < w2_list.len()
            invariant
                graph.wf(),
                n == graph@.len(),
                nn == n,
                16 * nn * nn + 16 <= usize::MAX,
                nn * nn <= usize::MAX,
                2 * nn + 8 <= usize::MAX,
                2 * nn + 4 < i32::MAX,
                shaped_for(*subset, nn),
                forall|x: int| #[trigger] subset@.contains(x) ==> x < n,
                k <= n,
                len == subset_vec@.len(),
                len <= n,
                lists_in_order(subset_vec@, subset@),
                node_map@.len() == n,
                maps_positions(node_map@, subset_vec@),
                src_out == 2 * len + 1,
                sink_in == 2 * len + 2,
                w1_edges@.len() == w1_cap@.len(),
                arcs_below(w1_edges@, 2 * len + 4),
                w1_edges@.len() <= 3 * sq + nn,
                sq == nn * nn,
                16 * sq + 16 <= usize::MAX,
                nn <= sq + 1,
                listed_in(rem, subset@),
                rem.len() <= nn,
                w2s == combos(rem, size_w2 as nat),
                vec_views(w2_list@) == w2s,
                w2s.len() == w2_list@.len(),
                b <= w2_list@.len(),
                a < w1_list@.len(),
                w1s.len() == w1_list@.len(),
                w1s == combos(w_vec@, size_w1 as nat),
                size_w1 == (w@.len() + 1) / 2,
                size_w2 == (w@.len() + 2) / 3,
                w1s[a as int] == w1@,
                rem == without(w_vec@, w1@, w_vec@.len() as int),
                subset_vec@ == sorted_list(subset@),
                w_vec@ == sorted_list(w@),
                inf == len + 2,
                base_edges@ == arcs_of(base_arcs(graph@, subset@, subset_vec@, node_map@, inf, len as int)),
                base_cap@ == caps_of(base_arcs(graph@, subset@, subset_vec@, node_map@, inf, len as int)),
                w1_edges@ == base_edges@ + clique_arcs(w1@, node_map@, w1@.len() as int) + hub_arcs(
                    w1@,
                    node_map@,
                    src_out,
                    true,
                    w1@.len() as int,
                ),
                w1_cap@.subrange(0, base_cap@.len() as int) == base_cap@,
                forall|e: int| base_cap@.len() <= e < w1_cap@.len() ==> #[trigger] w1_cap@[e] == inf,
                base_cap@.len() <= w1_cap@.len(),
                forall|a2: int, b2: int|
                    is_choice(w@, a2, b2) && choice_before(a2, b2, a as int, b as int) ==> #[trigger] choice_fails(
                        graph@,
                        subset@,
                        w@,
                        node_map@,
                        k as int,
                        a2,
                        b2,
                    ),
            decreases w2_list@.len() - b,
        {
            let w2 = &w2_list[b];
            proof {
                assert(vec_views(w2_list@)[b as int] == w2_list@[b as int]@);
                assert(w2s[b as int] == w2@);
                lemma_combos_props(rem, size_w2 as nat, b as int);
                assert(listed_in(w2@, subset@)) by {
                    assert forall|t: int| 0 <= t < w2@.len() implies subset@.contains(#[trigger] w2@[t] as int) by {
                        assert(rem.contains(w2@[t]));
                        let j = choose|j: int| 0 <= j < rem.len() && rem[j] == w2@[t];
                        assert(subset@.contains(rem[j] as int));
                    }
                }
                assert(w2@.len() <= nn) by {
                    assert(w2@.len() == size_w2);
                    assert(size_w2 <= rem.len()) by {
                        if size_w2 > rem.len() {
                            assert(w2s.len() == 0);
                        }
                    }
                }
            }
            let mut w2_edges = copy_arcs(&w1_edges);
            let mut w2_cap = copy_caps(&w1_cap);
            proof {
                assert(w2_edges@ == w1_edges@);
                assert(w2_cap@ == w1_cap@);
                assert(2 * w2@.len() * w2@.len() + w2@.len() <= 2 * sq + nn) by (nonlinear_arith)
                    requires
                        w2@.len() <= nn,
                        sq == nn * nn,
                ;
            }
            add_clique_arcs(&mut w2_edges, &mut w2_cap, w2, &node_map, &subset_vec, Ghost(subset@), sink_in, false, inf, len);
            proof {
                assert(2 * w2_edges@.len() + 2 <= usize::MAX);
                lemma_small_n(nn);
            }
            proof {
                let sv = sorted_list(subset@);
                let w2v = second_choices(w_vec@, w1s, a as int, size_w2 as nat)[b as int];
                assert(w2v == w2@);
                assert(w2_edges@ == trial_arcs(graph@, subset@, sv, node_map@, inf, w1@, w2@, src_out, sink_in));
                assert(w2_cap@ =~= trial_caps(graph@, subset@, sv, node_map@, inf, w2_edges@.len() as int)) by {
                    let base = caps_of(base_arcs(graph@, subset@, sv, node_map@, inf, sv.len() as int));
                    assert(base == base_cap@);
                    assert forall|e: int| 0 <= e < w2_cap@.len() implies w2_cap@[e] == trial_caps(graph@, subset@, sv, node_map@, inf, w2_edges@.len() as int)[e] by {
                        if e < base.len() {
                            assert(w2_cap@[e] == w2_cap@.subrange(0, w1_cap@.len() as int)[e]);
                            assert(w1_cap@[e] == w1_cap@.subrange(0, base_cap@.len() as int)[e]);
                        } else if e < w1_cap@.len() {
                            assert(w2_cap@[e] == w2_cap@.subrange(0, w1_cap@.len() as int)[e]);
                        }
                    }
                }
            }
            let separator = minimum_vertex_separator_bitset(
                2 * (len + 2),
                &w2_edges,
                &w2_cap,
                src_out,
                sink_in,
                k,
                &subset_vec,
                &node_map,
                n,
                Ghost(subset@),
            );
            match separator {
                Some(sep) => {
                    proof {
                        sep.sep.lemma_view_finite();
                        sep.c1.lemma_view_finite();
                        sep.c2.lemma_view_finite();
                    }
                    if sep.sep.len() <= k && !sep.c1.is_empty() && !sep.c2.is_empty() {
                        proof {
                            if sep.c1@.len() == 0 {
                                vstd::set_lib::lemma_set_empty_equivalency_len(sep.c1@);
                            }
                            if sep.c2@.len() == 0 {
                                vstd::set_lib::lemma_set_empty_equivalency_len(sep.c2@);
                            }
                        }
                        proof {
                            assert(choice_gives(graph@, subset@, w@, node_map@, k as int, a as int, b as int, sep));
                            assert(a < w1s.len());
                            assert(second_choices(w_vec@, w1s, a as int, size_w2 as nat) == w2s);
                            assert(b < w2s.len());
                            assert(is_choice(w@, a as int, b as int));
                            assert(maps_positions(node_map@, sorted_list(subset@)));
                        }
                        return Some(sep);
                    }
                    proof {
                        assert(sep.c1@.len() > 0 ==> sep.c1@ != Set::<int>::empty());
                        assert(sep.c2@.len() > 0 ==> sep.c2@ != Set::<int>::empty());
                        assert(choice_fails(graph@, subset@, w@, node_map@, k as int, a as int, b as int));
                    }
                },
                None => {
                    proof {
                        assert(choice_fails(graph@, subset@, w@, node_map@, k as int, a as int, b as int));
                    }
                },
            }
            b = b + 1;
        }
        a = a + 1;
    }
    proof {
        assert(maps_positions(node_map@, sorted_list(subset@)));
    }
    None
}

} // verus!
