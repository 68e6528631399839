//! Recursion over separators.
//!
//! To decide whether the width is at most `k`, the algorithm looks for a set `S` of vertices
//! whose removal leaves only small components, each of which the recursion over balanced splits
//! eliminates within width `k`. For small and large `k` the set has `k + 1` vertices; in
//! between it has `⌊0.4203 n⌋ + 1`, and the graph that `S` induces, with the edges that the
//! components of the rest add to it, must in turn have width at most `k`. The width returned
//! is one more than the largest `k`, from `n` down, for which the test fails.
//!
//! The width is never below the treewidth, but the test can fail at the treewidth itself, so
//! the width can be above it: on `INiBHQcAG` (10 vertices, treewidth 3) it is 4. The two
//! representations use different balance bounds in the middle range of `k`, so their widths
//! are stated separately.

use vstd::prelude::*;
use crate::graph::Graph;
use crate::graph::bitset;
use crate::graph::bitset::{lemma_shaped_same_variant, lemma_small_n, shaped_for};
use crate::graph::model::{is_graph, Nbrs};
use crate::treewidth::exact::dynamic_prog::all_vertices;
use crate::treewidth::exact::reach::{component, lemma_component_in_range, lemma_component_same, lemma_component_start, touches};
use crate::treewidth::exact::rec::{rec_width, treewidth_recursive, vertex_count};
use crate::treewidth::exact::separation::{lemma_fits_sound, lemma_improved_width_above};
use crate::treewidth::width::elim_width;
use crate::treewidth::exact::{
    all_connected_component_bitset, bitset_views, combinations_bitset, combos, components_of,
    increasing, is_component_of, lemma_combos_complete, lemma_combos_props, lemma_listing_len, seq_set,
    sorted_list,
};
use crate::utils::bitset::{lists_in_order, BitSet};

verus! {

/// `⌊0.4203 n⌋`.
pub open spec fn big_split(n: int) -> int {
    n * 4203 / 10000
}

/// The components of `g - s` grown by the vertices of `l`, taken in order: a vertex joins when
/// it has a neighbour in the set grown so far.
pub open spec fn augment(g: Nbrs, l: Seq<usize>, c: Set<int>, v: int) -> Set<int>
    decreases v,
{
    if v <= 0 {
        c
    } else {
        let a = augment(g, l, c, v - 1);
        if touches(g, l[v - 1] as int, a) {
            a.insert(l[v - 1] as int)
        } else {
            a
        }
    }
}

/// The vertices of `g` not in `s`.
pub open spec fn rest_of(g: Nbrs, s: Set<int>) -> Set<int> {
    all_vertices(g.len() as int).difference(s)
}

/// Whether the `i`-th and `j`-th vertices of `s` (in increasing order) are adjacent in `g` or
/// both in the grown set of one component of `g - s`.
pub open spec fn torso_edge(g: Nbrs, s: Set<int>, i: int, j: int) -> bool {
    let l = sorted_list(s);
    let rest = rest_of(g, s);
    ||| g[l[i] as int].contains(l[j] as int)
    ||| exists|v: int|
        rest.contains(v) && augment(g, l, component(g, rest, v), l.len() as int).contains(l[i] as int)
            && augment(g, l, component(g, rest, v), l.len() as int).contains(l[j] as int)
}

/// The graph on the vertices of `s`, numbered in increasing order, with the edges of
/// `torso_edge`.
pub open spec fn torso(g: Nbrs, s: Set<int>) -> Nbrs {
    let m = sorted_list(s).len();
    Seq::new(
        m,
        |i: int|
            Set::new(
                |j: int|
                    0 <= j < m && j != i && if i < j {
                        torso_edge(g, s, i, j)
                    } else {
                        torso_edge(g, s, j, i)
                    },
            ),
    )
}

/// Whether removing `s` leaves only components of at most `bound` vertices, each of which the
/// recursion over balanced splits eliminates within width `k`.
pub open spec fn split_ok(g: Nbrs, s: Set<int>, k: int, bound: int) -> bool {
    forall|v: int|
        #![trigger rest_of(g, s).contains(v)]
        rest_of(g, s).contains(v) ==> component(g, rest_of(g, s), v).len() <= bound && rec_width(
            g,
            Set::empty(),
            component(g, rest_of(g, s), v),
        ) <= k
}

/// The vertices `0..n` in order.
pub open spec fn vertex_list(n: int) -> Seq<usize> {
    Seq::new(n as nat, |i: int| i as usize)
}

/// Whether the test for width at most `k` succeeds on `g`. With `adj_bound`, the components
/// left by a large separator may have up to `(n - |S| + 1) / 2` vertices, otherwise up to
/// `(n - k) / 2`.
pub open spec fn fits(g: Nbrs, k: int, adj_bound: bool) -> bool
    decreases g.len(), 1nat, 0int,
{
    let n = g.len() as int;
    if n <= k + 1 {
        true
    } else if k <= n / 4 || k >= big_split(n) {
        let cs = combos(vertex_list(n), (k + 1) as nat);
        exists|i: int| 0 <= i < cs.len() && #[trigger] split_ok(g, seq_set(cs[i]), k, (n - k) / 2)
    } else {
        let cs = combos(vertex_list(n), (big_split(n) + 1) as nat);
        any_big(g, k, adj_bound, cs, cs.len() as int)
    }
}

/// Whether one of the first `i` large separators of `cs` works.
pub open spec fn any_big(g: Nbrs, k: int, adj_bound: bool, cs: Seq<Seq<usize>>, i: int) -> bool
    decreases g.len(), 0nat, i,
{
    if i <= 0 {
        false
    } else {
        any_big(g, k, adj_bound, cs, i - 1) || {
            let s = seq_set(cs[i - 1]);
            let n = g.len() as int;
            let bound = if adj_bound {
                (n - s.len() + 1) / 2
            } else {
                (n - k) / 2
            };
            let t = torso(g, s);
            split_ok(g, s, k, bound) && t.len() < g.len() && fits(t, k, adj_bound)
        }
    }
}

/// Whether `l` lists `m` vertices of a graph on `n` vertices, in increasing order.
pub open spec fn vertex_selection(n: int, m: int, l: Seq<usize>) -> bool {
    &&& increasing(l)
    &&& l.len() == m
    &&& forall|t: int| 0 <= t < l.len() ==> #[trigger] l[t] < n
}

/// Whether the set `s` works as a large separator for width `k`: the components it leaves are
/// within the balance bound and each eliminable within width `k`, and its torso is smaller than
/// `g` and passes the test for width `k`.
pub open spec fn big_separator_ok(g: Nbrs, k: int, adj_bound: bool, s: Set<int>) -> bool {
    let n = g.len() as int;
    let bound = if adj_bound {
        (n - s.len() + 1) / 2
    } else {
        (n - k) / 2
    };
    split_ok(g, s, k, bound) && torso(g, s).len() < g.len() && fits(torso(g, s), k, adj_bound)
}

/// A large separator listed at position `j` before `i` makes the search over the first `i`
/// succeed.
proof fn lemma_any_big_at(g: Nbrs, k: int, adj_bound: bool, cs: Seq<Seq<usize>>, i: int, j: int)
    requires
        0 <= j < i,
        big_separator_ok(g, k, adj_bound, seq_set(cs[j])),
    ensures
        any_big(g, k, adj_bound, cs, i),
    decreases i,
{
    if j < i - 1 {
        lemma_any_big_at(g, k, adj_bound, cs, i - 1, j);
    }
}

/// When the search over the first `i` large separators succeeds, one of them works.
proof fn lemma_any_big_witness(g: Nbrs, k: int, adj_bound: bool, cs: Seq<Seq<usize>>, i: int)
    requires
        any_big(g, k, adj_bound, cs, i),
    ensures
        exists|j: int| 0 <= j < i && #[trigger] big_separator_ok(g, k, adj_bound, seq_set(cs[j])),
    decreases i,
{
    if i > 0 {
        if any_big(g, k, adj_bound, cs, i - 1) {
            lemma_any_big_witness(g, k, adj_bound, cs, i - 1);
            let j = choose|j: int| 0 <= j < i - 1 && #[trigger] big_separator_ok(g, k, adj_bound, seq_set(cs[j]));
            assert(big_separator_ok(g, k, adj_bound, seq_set(cs[j])));
        } else {
            assert(big_separator_ok(g, k, adj_bound, seq_set(cs[i - 1])));
        }
    }
}

/// The selections of `m` vertices of `0..n` are exactly the increasing lists of `m` vertices.
proof fn lemma_vertex_selections(n: int, m: nat, l: Seq<usize>)
    requires
        0 <= n <= usize::MAX,
    ensures
        vertex_selection(n, m as int, l) ==> combos(vertex_list(n), m).contains(l),
        combos(vertex_list(n), m).contains(l) ==> vertex_selection(n, m as int, l),
{
    let vl = vertex_list(n);
    assert forall|a: int, b: int| 0 <= a < b < vl.len() implies vl[a] < vl[b] by {}
    assert(increasing(vl));
    if vertex_selection(n, m as int, l) {
        assert forall|t: int| 0 <= t < l.len() implies vl.contains(#[trigger] l[t]) by {
            assert(vl[l[t] as int] == l[t]);
        }
        lemma_combos_complete(vl, m, l);
    }
    if combos(vl, m).contains(l) {
        let i = choose|i: int| 0 <= i < combos(vl, m).len() && combos(vl, m)[i] == l;
        lemma_combos_props(vl, m, i);
        assert forall|t: int| 0 <= t < l.len() implies #[trigger] l[t] < n by {
            assert(vl.contains(l[t]));
        }
    }
}

/// For a width `k` that is small (at most `n / 4`) or large (at least `⌊0.4203 n⌋`), with more
/// than `k + 1` vertices, the test succeeds exactly when some set of `k + 1` vertices leaves
/// only components of at most `(n - k) / 2` vertices, each eliminable within width `k`: every
/// such set is tried.
pub proof fn lemma_fits_small_k(g: Nbrs, k: int, adj_bound: bool)
    requires
        k >= 0,
        g.len() > k + 1,
        g.len() <= usize::MAX,
        k <= g.len() / 4 || k >= big_split(g.len() as int),
    ensures
        fits(g, k, adj_bound) <==> exists|l: Seq<usize>|
            #[trigger] vertex_selection(g.len() as int, k + 1, l) && split_ok(
                g,
                seq_set(l),
                k,
                (g.len() - k) / 2,
            ),
{
    let n = g.len() as int;
    let cs = combos(vertex_list(n), (k + 1) as nat);
    if fits(g, k, adj_bound) {
        let i = choose|i: int| 0 <= i < cs.len() && #[trigger] split_ok(g, seq_set(cs[i]), k, (n - k) / 2);
        lemma_vertex_selections(n, (k + 1) as nat, cs[i]);
        assert(vertex_selection(n, k + 1, cs[i]));
    }
    if exists|l: Seq<usize>| #[trigger] vertex_selection(n, k + 1, l) && split_ok(g, seq_set(l), k, (n - k) / 2) {
        let l = choose|l: Seq<usize>| #[trigger] vertex_selection(n, k + 1, l) && split_ok(g, seq_set(l), k, (n - k) / 2);
        lemma_vertex_selections(n, (k + 1) as nat, l);
        let i = choose|i: int| 0 <= i < cs.len() && cs[i] == l;
        assert(split_ok(g, seq_set(cs[i]), k, (n - k) / 2));
    }
}

/// For a width `k` strictly between `n / 4` and `⌊0.4203 n⌋`, with more than `k + 1` vertices,
/// the test succeeds exactly when some set of `⌊0.4203 n⌋ + 1` vertices works as a large
/// separator: every such set is tried.
pub proof fn lemma_fits_middle_k(g: Nbrs, k: int, adj_bound: bool)
    requires
        g.len() > k + 1,
        g.len() <= usize::MAX,
        g.len() / 4 < k < big_split(g.len() as int),
    ensures
        fits(g, k, adj_bound) <==> exists|l: Seq<usize>|
            #[trigger] vertex_selection(g.len() as int, big_split(g.len() as int) + 1, l) && big_separator_ok(
                g,
                k,
                adj_bound,
                seq_set(l),
            ),
{
    let n = g.len() as int;
    let m = big_split(n) + 1;
    let cs = combos(vertex_list(n), m as nat);
    assert(fits(g, k, adj_bound) == any_big(g, k, adj_bound, cs, cs.len() as int));
    if fits(g, k, adj_bound) {
        lemma_any_big_witness(g, k, adj_bound, cs, cs.len() as int);
        let j = choose|j: int| 0 <= j < cs.len() && #[trigger] big_separator_ok(g, k, adj_bound, seq_set(cs[j]));
        assert(cs.contains(cs[j]));
        lemma_vertex_selections(n, m as nat, cs[j]);
        assert(vertex_selection(n, m, cs[j]));
    }
    if exists|l: Seq<usize>| #[trigger] vertex_selection(n, m, l) && big_separator_ok(g, k, adj_bound, seq_set(l)) {
        let l = choose|l: Seq<usize>| #[trigger] vertex_selection(n, m, l) && big_separator_ok(g, k, adj_bound, seq_set(l));
        lemma_vertex_selections(n, m as nat, l);
        let i = choose|i: int| 0 <= i < cs.len() && cs[i] == l;
        lemma_any_big_at(g, k, adj_bound, cs, cs.len() as int, i);
    }
}

/// What the search from `k` down reports, in terms of the test alone: a width `r` with
/// `1 <= r <= k + 1` (for `k >= 0` and a test that fails at 0) at which the test passes for
/// every width from `r` to `k`, and fails at `r - 1`.
pub proof fn lemma_search_result(g: Nbrs, k: int, adj_bound: bool)
    requires
        k >= 0,
        !fits(g, 0, adj_bound),
    ensures
        1 <= separator_search_result(g, k, adj_bound) <= k + 1,
        !fits(g, separator_search_result(g, k, adj_bound) - 1, adj_bound),
        forall|j: int| separator_search_result(g, k, adj_bound) <= j <= k ==> #[trigger] fits(g, j, adj_bound),
    decreases k,
{
    if k > 0 && fits(g, k, adj_bound) {
        lemma_search_result(g, k - 1, adj_bound);
        let r = separator_search_result(g, k - 1, adj_bound);
        assert forall|j: int| r <= j <= k implies #[trigger] fits(g, j, adj_bound) by {
            if j < k {
                assert(fits(g, j, adj_bound));
            }
        }
    }
}

/// What the search over separators reports: one more than the largest `k' <= k` for which the
/// test fails. Never below the treewidth, and not always equal to it.
pub open spec fn separator_search_result(g: Nbrs, k: int, adj_bound: bool) -> int
    decreases k,
{
    if k <= 0 || !fits(g, k, adj_bound) {
        k + 1
    } else {
        separator_search_result(g, k - 1, adj_bound)
    }
}

/// The largest number of vertices in a listed component.
fn max_size_all_components_bitset(components: &Vec<BitSet>) -> (r: usize)
    requires
        components@.len() >= 1,
        forall|i: int| 0 <= i < components@.len() ==> (#[trigger] components@[i]).wf(),
    ensures
        forall|i: int| 0 <= i < components@.len() ==> (#[trigger] components@[i])@.len() <= r,
        exists|i: int| 0 <= i < components@.len() && (#[trigger] components@[i])@.len() == r,
{
    let mut best = components[0].len();
    let mut i: usize = 1;
    while i < components.len()
        invariant
            1 <= i <= components@.len(),
            forall|j: int| 0 <= j < components@.len() ==> (#[trigger] components@[j]).wf(),
            forall|j: int| 0 <= j < i ==> (#[trigger] components@[j])@.len() <= best,
            exists|j: int| 0 <= j < i && (#[trigger] components@[j])@.len() == best,
        decreases components@.len() - i,
    {
        let l = components[i].len();
        if l > best {
            best = l;
        }
        i = i + 1;
    }
    best
}

/// Whether the pairs `(a, b)`, `a < b`, met before `(v, w)` by a double loop are edges of `h`
/// exactly when they are edges of the torso, and no later pair is.
pub open spec fn torso_so_far(h: Nbrs, g: Nbrs, s: Set<int>, v: int, w: int) -> bool {
    forall|a: int, b: int|
        #![trigger h[a].contains(b)]
        0 <= a < h.len() && 0 <= b < h.len() && a != b ==> h[a].contains(b) == {
            let lo = if a < b {
                a
            } else {
                b
            };
            let hi = if a < b {
                b
            } else {
                a
            };
            (lo < v || (lo == v && hi < w)) && torso_edge(g, s, lo, hi)
        }
}

/// The graph that `subset` induces, numbered in increasing order, with an edge between two of
/// its vertices also when both belong to the grown set of one component of the rest.
fn fill_in_graph_bitset(graph: &bitset::Graph, subset: &BitSet) -> (r: bitset::Graph)
    requires
        graph.wf(),
        shaped_for(*subset, graph@.len() as int),
        forall|x: int| #[trigger] subset@.contains(x) ==> x < graph@.len(),
        subset@.len() >= 1,
    ensures
        r.wf(),
        r@ == torso(graph@, subset@),
{
    let ghost g = graph@;
    let ghost s = subset@;
    proof {
        graph.lemma_wf();
        subset.lemma_view_finite();
    }
    let n = graph.n();
    proof {
        lemma_small_n(n as int);
        crate::treewidth::approx::lemma_vertex_set_len(s, n as int);
    }
    let new_n = subset.len();
    proof {
        assert(new_n * new_n <= n * n) by (nonlinear_arith)
            requires
                new_n <= n,
        ;
    }
    let mut new_graph = bitset::Graph::new(new_n);
    let full = BitSet::full(n);
    proof {
        lemma_shaped_same_variant(full, *subset, n as int);
    }
    let complement = full.difference(subset);
    let ghost rest = rest_of(g, s);
    proof {
        assert(complement@ =~= rest);
        assert(shaped_for(complement, n as int));
    }
    let base = all_connected_component_bitset(graph, &complement);
    let ghost views = bitset_views(base@);
    let mut components: Vec<BitSet> = Vec::new();
    let mut c: usize = 0;
    while c < base.len()
        invariant
            c <= base@.len(),
            components@.len() == c,
            forall|j: int| 0 <= j < c ==> (#[trigger] components@[j])@ == base@[j]@,
            forall|j: int| 0 <= j < c ==> #[trigger] shaped_for(components@[j], n as int),
            forall|j: int| 0 <= j < base@.len() ==> #[trigger] shaped_for(base@[j], n as int),
        decreases base@.len() - c,
    {
        proof {
            assert(shaped_for(base@[c as int], n as int));
        }
        components.push(base[c].duplicate());
        c = c + 1;
    }
    let subset_vec = subset.to_vec();
    let ghost l = subset_vec@;
    proof {
        crate::treewidth::exact::lemma_sorted_unique(l, sorted_list(s), s);
        lemma_listing_len(l, s);
    }
    let mut v: usize = 0;
    while v < new_n
        invariant
            graph.wf(),
            g == graph@,
            is_graph(g),
            n == g.len(),
            n * n <= usize::MAX,
            l == subset_vec@,
            l == sorted_list(s),
            lists_in_order(l, s),
            new_n == l.len(),
            forall|x: int| #[trigger] s.contains(x) ==> x < n,
            v <= new_n,
            components@.len() == base@.len(),
            forall|j: int| 0 <= j < components@.len() ==> #[trigger] shaped_for(components@[j], n as int),
            forall|j: int| 0 <= j < components@.len() ==> (#[trigger] components@[j])@ == augment(g, l, base@[j]@, v as int),
        decreases new_n - v,
    {
        let v_orig = subset_vec[v];
        proof {
            assert(s.contains(l[v as int] as int));
        }
        let mut cc: usize = 0;
        while cc < components.len()
            invariant
                graph.wf(),
                g == graph@,
                is_graph(g),
                n == g.len(),
                n * n <= usize::MAX,
                l == subset_vec@,
                v < new_n == l.len(),
                v_orig == l[v as int],
                v_orig < n,
                cc <= components@.len(),
                components@.len() == base@.len(),
                forall|j: int| 0 <= j < components@.len() ==> #[trigger] shaped_for(components@[j], n as int),
                forall|j: int| 0 <= j < cc ==> (#[trigger] components@[j])@ == augment(g, l, base@[j]@, v + 1),
                forall|j: int| cc <= j < components@.len() ==> (#[trigger] components@[j])@ == augment(g, l, base@[j]@, v as int),
            decreases components@.len() - cc,
        {
            proof {
                graph.lemma_wf();
            }
            let nb = graph.neighbors(v_orig).unwrap().to_vec();
            let ghost a = augment(g, l, base@[cc as int]@, v as int);
            let ghost before = components@;
            let mut t: usize = 0;
            while t < nb.len()
                invariant
                    graph.wf(),
                    g == graph@,
                    is_graph(g),
                    n == g.len(),
                    n * n <= usize::MAX,
                    v_orig < n,
                    lists_in_order(nb@, g[v_orig as int]),
                    cc < components@.len(),
                    components@.len() == before.len(),
                    forall|j: int| 0 <= j < components@.len() ==> #[trigger] shaped_for(components@[j], n as int),
                    forall|j: int| 0 <= j < components@.len() && j != cc ==> #[trigger] components@[j] == before[j],
                    t <= nb@.len(),
                    !a.contains(v_orig as int) || components@[cc as int]@ == a,
                    components@[cc as int]@ == if exists|q: int| 0 <= q < t && a.contains(#[trigger] nb@[q] as int) {
                        a.insert(v_orig as int)
                    } else {
                        a
                    },
                decreases nb@.len() - t,
            {
                let neighbor = nb[t];
                proof {
                    assert(g[v_orig as int].contains(neighbor as int));
                    lemma_small_n(n as int);
                }
                let ghost cur = components@[cc as int]@;
                proof {
                    assert(shaped_for(components@[cc as int], n as int));
                }
                let hit = components[cc].contains(neighbor);
                proof {
                    assert(neighbor != v_orig);
                    assert(hit == a.contains(neighbor as int));
                }
                if hit {
                    let mut comp = components[cc].duplicate();
                    comp.insert(v_orig);
                    components.set(cc, comp);
                }
                proof {
                    if hit {
                        assert(nb@[t as int] == neighbor);
                    }
                    if exists|q: int| 0 <= q < t + 1 && a.contains(#[trigger] nb@[q] as int) {
                        if !hit {
                            let q = choose|q: int| 0 <= q < t + 1 && a.contains(#[trigger] nb@[q] as int);
                            assert(q < t);
                        }
                    }
                }
                t = t + 1;
            }
            proof {
                assert(components@[cc as int]@ == augment(g, l, base@[cc as int]@, v + 1)) by {
                    let q_exists = exists|q: int| 0 <= q < nb@.len() && a.contains(#[trigger] nb@[q] as int);
                    assert(q_exists == touches(g, l[v as int] as int, a)) by {
                        if touches(g, l[v as int] as int, a) {
                            let y = choose|y: int| #[trigger] g[l[v as int] as int].contains(y) && a.contains(y);
                            let q = choose|q: int| 0 <= q < nb@.len() && nb@[q] == y;
                            assert(a.contains(nb@[q] as int));
                        }
                        if q_exists {
                            let q = choose|q: int| 0 <= q < nb@.len() && a.contains(#[trigger] nb@[q] as int);
                            assert(g[v_orig as int].contains(nb@[q] as int));
                        }
                    }
                    if a.contains(v_orig as int) {
                        assert(a.insert(v_orig as int) =~= a);
                    }
                }
            }
            cc = cc + 1;
        }
        v = v + 1;
    }
    proof {
        assert forall|x: int, y: int| #[trigger] listed_pair(g, l, components@, x, y) == torso_pair(g, s, l, x, y) by {
            lemma_listed_pair(g, s, l, base@, components@, x, y);
        }
        assert(torso_so_far(new_graph@, g, s, 0, 1));
    }
    let mut v: usize = 0;
    while v + 1 < new_n
        invariant
            graph.wf(),
            g == graph@,
            is_graph(g),
            n == g.len(),
            n * n <= usize::MAX,
            l == subset_vec@,
            l == sorted_list(s),
            lists_in_order(l, s),
            new_n == l.len(),
            forall|x: int| #[trigger] s.contains(x) ==> x < n,
            v + 1 <= new_n,
            new_graph.wf(),
            new_graph@.len() == new_n,
            components@.len() == base@.len(),
            forall|j: int| 0 <= j < components@.len() ==> #[trigger] shaped_for(components@[j], n as int),
            forall|x: int, y: int| #[trigger] listed_pair(g, l, components@, x, y) == torso_pair(g, s, l, x, y),
            torso_so_far(new_graph@, g, s, v as int, v + 1),
        decreases new_n - v,
    {
        let v_orig = subset_vec[v];
        let mut w: usize = v + 1;
        while w < new_n
            invariant
                graph.wf(),
                g == graph@,
                is_graph(g),
                n == g.len(),
                n * n <= usize::MAX,
                l == subset_vec@,
                l == sorted_list(s),
                lists_in_order(l, s),
                new_n == l.len(),
                forall|x: int| #[trigger] s.contains(x) ==> x < n,
                v < w <= new_n,
                v_orig == l[v as int],
                new_graph.wf(),
                new_graph@.len() == new_n,
                components@.len() == base@.len(),
                forall|j: int| 0 <= j < components@.len() ==> #[trigger] shaped_for(components@[j], n as int),
                forall|x: int, y: int| #[trigger] listed_pair(g, l, components@, x, y) == torso_pair(g, s, l, x, y),
                torso_so_far(new_graph@, g, s, v as int, w as int),
            decreases new_n - w,
        {
            let w_orig = subset_vec[w];
            proof {
                assert(s.contains(l[v as int] as int));
                assert(s.contains(l[w as int] as int));
                graph.lemma_wf();
                lemma_small_n(n as int);
            }
            let ghost before = new_graph@;
            let nb = graph.neighbors(v_orig).unwrap();
            let adjacent = nb.contains(w_orig);
            let mut found = false;
            if adjacent {
                new_graph.add_edge(v, w);
            } else {
                let mut c: usize = 0;
                while c < components.len()
                    invariant
                        n * n <= usize::MAX,
                        v_orig < n,
                        w_orig < n,
                        v < w < new_n,
                        new_graph.wf(),
                        new_graph@.len() == new_n,
                        before.len() == new_n,
                        c <= components@.len(),
                        forall|j: int| 0 <= j < components@.len() ==> #[trigger] shaped_for(components@[j], n as int),
                        found == exists|j: int| 0 <= j < c && (#[trigger] components@[j])@.contains(v_orig as int)
                            && components@[j]@.contains(w_orig as int),
                        new_graph@ == if found {
                            if before[v as int].contains(w as int) {
                                before
                            } else {
                                crate::graph::model::add_edge_view(before, v as int, w as int)
                            }
                        } else {
                            before
                        },
                    decreases components@.len() - c,
                {
                    proof {
                        assert(shaped_for(components@[c as int], n as int));
                        lemma_small_n(n as int);
                    }
                    if components[c].contains(v_orig) && components[c].contains(w_orig) {
                        proof {
                            assert(crate::graph::model::add_edge_view(before, v as int, w as int)[v as int].contains(w as int));
                        }
                        new_graph.add_edge(v, w);
                        found = true;
                    }
                    c = c + 1;
                }
            }
            proof {
                let edge = torso_edge(g, s, v as int, w as int);
                assert(edge == (adjacent || found)) by {
                    assert(adjacent == g[l[v as int] as int].contains(l[w as int] as int));
                    if !adjacent {
                        assert(found == listed_pair(g, l, components@, l[v as int] as int, l[w as int] as int));
                    }
                }
                assert forall|a: int, b: int|
                    #![trigger new_graph@[a].contains(b)]
                    0 <= a < new_graph@.len() && 0 <= b < new_graph@.len() && a != b implies new_graph@[a].contains(b) == {
                        let lo = if a < b {
                            a
                        } else {
                            b
                        };
                        let hi = if a < b {
                            b
                        } else {
                            a
                        };
                        (lo < v || (lo == v && hi < w + 1)) && torso_edge(g, s, lo, hi)
                    } by {
                    assert(before[a].contains(b) == {
                        let lo = if a < b {
                            a
                        } else {
                            b
                        };
                        let hi = if a < b {
                            b
                        } else {
                            a
                        };
                        (lo < v || (lo == v && hi < w)) && torso_edge(g, s, lo, hi)
                    });
                }
            }
            w = w + 1;
        }
        v = v + 1;
    }
    proof {
        let t = torso(g, s);
        assert forall|a: int| 0 <= a < new_n implies #[trigger] new_graph@[a] =~= t[a] by {
            assert forall|b: int| #[trigger] new_graph@[a].contains(b) == t[a].contains(b) by {
                if new_graph@[a].contains(b) {
                    new_graph.lemma_wf();
                }
            }
        }
        assert(new_graph@ =~= t);
    }
    new_graph
}

/// Whether some listed grown component holds both `x` and `y`.
pub open spec fn listed_pair(g: Nbrs, l: Seq<usize>, comps: Seq<BitSet>, x: int, y: int) -> bool {
    exists|j: int| 0 <= j < comps.len() && (#[trigger] comps[j])@.contains(x) && comps[j]@.contains(y)
}

/// Whether the grown set of some component of `g - s` holds both `x` and `y`.
pub open spec fn torso_pair(g: Nbrs, s: Set<int>, l: Seq<usize>, x: int, y: int) -> bool {
    exists|v: int|
        rest_of(g, s).contains(v) && augment(g, l, component(g, rest_of(g, s), v), l.len() as int).contains(x)
            && augment(g, l, component(g, rest_of(g, s), v), l.len() as int).contains(y)
}

proof fn lemma_listed_pair(g: Nbrs, s: Set<int>, l: Seq<usize>, base: Seq<BitSet>, comps: Seq<BitSet>, x: int, y: int)
    requires
        is_graph(g),
        components_of(g, rest_of(g, s), bitset_views(base)),
        comps.len() == base.len(),
        forall|j: int| 0 <= j < comps.len() ==> (#[trigger] comps[j])@ == augment(g, l, base[j]@, l.len() as int),
    ensures
        listed_pair(g, l, comps, x, y) == torso_pair(g, s, l, x, y),
{
    let rest = rest_of(g, s);
    let views = bitset_views(base);
    if listed_pair(g, l, comps, x, y) {
        let j = choose|j: int| 0 <= j < comps.len() && (#[trigger] comps[j])@.contains(x) && comps[j]@.contains(y);
        assert(views[j] == base[j]@);
        assert(is_component_of(g, rest, views[j]));
        let u = choose|u: int| rest.contains(u) && views[j] == component(g, rest, u);
        assert(rest.contains(u) && augment(g, l, component(g, rest, u), l.len() as int).contains(x)
            && augment(g, l, component(g, rest, u), l.len() as int).contains(y));
    }
    if torso_pair(g, s, l, x, y) {
        let u = choose|u: int|
            rest.contains(u) && augment(g, l, component(g, rest, u), l.len() as int).contains(x)
                && augment(g, l, component(g, rest, u), l.len() as int).contains(y);
        let j = choose|j: int| 0 <= j < views.len() && (#[trigger] views[j]).contains(u);
        assert(views[j] == base[j]@);
        assert(is_component_of(g, rest, views[j]));
        let w = choose|w: int| rest.contains(w) && views[j] == component(g, rest, w);
        lemma_component_start(g, rest, u);
        assert(0 <= u < g.len());
        assert(0 <= w < g.len());
        lemma_component_same(g, rest, w, u, u);
        assert(comps[j]@.contains(x) && comps[j]@.contains(y));
    }
}


/// Whether removing `s` leaves only listed components of at most `bound` vertices each of
/// width at most `k`, stated over the listed components.
proof fn lemma_split_ok_listed(g: Nbrs, s: Set<int>, k: int, bound: int, views: Seq<Set<int>>)
    requires
        is_graph(g),
        components_of(g, rest_of(g, s), views),
    ensures
        split_ok(g, s, k, bound) == forall|j: int|
            0 <= j < views.len() ==> (#[trigger] views[j]).len() <= bound && rec_width(g, Set::empty(), views[j]) <= k,
{
    let rest = rest_of(g, s);
    if split_ok(g, s, k, bound) {
        assert forall|j: int| 0 <= j < views.len() implies (#[trigger] views[j]).len() <= bound && rec_width(
            g,
            Set::empty(),
            views[j],
        ) <= k by {
            assert(is_component_of(g, rest, views[j]));
            let u = choose|u: int| rest.contains(u) && views[j] == component(g, rest, u);
            assert(rest.contains(u));
        }
    }
    if forall|j: int|
        0 <= j < views.len() ==> (#[trigger] views[j]).len() <= bound && rec_width(g, Set::empty(), views[j]) <= k {
        assert forall|u: int| #[trigger] rest.contains(u) implies component(g, rest, u).len() <= bound && rec_width(
            g,
            Set::empty(),
            component(g, rest, u),
        ) <= k by {
            let j = choose|j: int| 0 <= j < views.len() && (#[trigger] views[j]).contains(u);
            assert(is_component_of(g, rest, views[j]));
            let w = choose|w: int| rest.contains(w) && views[j] == component(g, rest, w);
            lemma_component_start(g, rest, u);
            lemma_component_same(g, rest, w, u, u);
        }
    }
}

/// A large separator that works among the first `i` still works among the first `j >= i`.
proof fn lemma_any_big_mono(g: Nbrs, k: int, adj_bound: bool, cs: Seq<Seq<usize>>, i: int, j: int)
    requires
        0 <= i <= j,
        any_big(g, k, adj_bound, cs, i),
    ensures
        any_big(g, k, adj_bound, cs, j),
    decreases j - i,
{
    if i < j {
        lemma_any_big_mono(g, k, adj_bound, cs, i, j - 1);
    }
}

/// With more than one vertex, a large separator leaves some vertex out.
proof fn lemma_big_split_small(n: int)
    requires
        n >= 2,
    ensures
        big_split(n) + 1 < n,
{
    assert(n * 4203 / 10000 <= n * 4203 / 10000);
    assert(n * 4203 < 10000 * (n - 1)) by (nonlinear_arith)
        requires
            n >= 2,
    ;
}

/// A set of fewer than `n` vertices below `n` leaves a vertex out.
proof fn lemma_some_left(s: Set<int>, n: int)
    requires
        n >= 1,
        s.finite(),
        s.len() < n,
        forall|x: int| #[trigger] s.contains(x) ==> 0 <= x < n,
    ensures
        exists|x: int| 0 <= x < n && !s.contains(x),
{
    if forall|x: int| 0 <= x < n ==> s.contains(x) {
        vstd::set_lib::lemma_int_range(0, n);
        assert(vstd::set_lib::set_int_range(0, n).subset_of(s));
        vstd::set_lib::lemma_len_subset(vstd::set_lib::set_int_range(0, n), s);
    }
}

/// Whether every listed component has width at most `k`.
fn components_within(whole: &Graph, n: usize, left: &BitSet, components: &Vec<BitSet>, k: usize) -> (r: bool)
    requires
        whole.wf(),
        n == whole@.len(),
        shaped_for(*left, n as int),
        left@ == Set::<int>::empty(),
        forall|j: int| 0 <= j < components@.len() ==> #[trigger] shaped_for(components@[j], n as int),
        forall|j: int| 0 <= j < components@.len() ==> (#[trigger] components@[j])@.len() >= 1,
        forall|j: int, x: int|
            0 <= j < components@.len() && #[trigger] components@[j]@.contains(x) ==> x < n,
    ensures
        r == forall|j: int|
            0 <= j < components@.len() ==> rec_width(whole@, Set::empty(), #[trigger] bitset_views(components@)[j]) <= k,
{
    let ghost g = whole@;
    let ghost views = bitset_views(components@);
    let mut c: usize = 0;
    while c < components.len()
        invariant
            whole.wf(),
            whole@ == g,
            n == g.len(),
            shaped_for(*left, n as int),
            left@ == Set::<int>::empty(),
            views == bitset_views(components@),
            forall|j: int| 0 <= j < components@.len() ==> #[trigger] shaped_for(components@[j], n as int),
            forall|j: int| 0 <= j < components@.len() ==> (#[trigger] components@[j])@.len() >= 1,
            forall|j: int, x: int|
                0 <= j < components@.len() && #[trigger] components@[j]@.contains(x) ==> x < n,
            c <= components@.len(),
            forall|j: int| 0 <= j < c ==> rec_width(g, Set::empty(), #[trigger] views[j]) <= k,
        decreases components@.len() - c,
    {
        assert(shaped_for(components@[c as int], n as int));
        let part = components[c].duplicate();
        assert(views[c as int] == components@[c as int]@);
        let tw = treewidth_recursive(whole, left, part);
        if tw > k {
            return false;
        }
        c = c + 1;
    }
    true
}

/// Each listed component of a set of vertices of `g` is nonempty and holds vertices of `g`.
proof fn lemma_listed_components(g: Nbrs, rest: Set<int>, comps: Seq<BitSet>)
    requires
        is_graph(g),
        forall|x: int| #[trigger] rest.contains(x) ==> 0 <= x < g.len(),
        components_of(g, rest, bitset_views(comps)),
        forall|j: int| 0 <= j < comps.len() ==> (#[trigger] comps[j]).wf(),
    ensures
        forall|j: int| 0 <= j < comps.len() ==> (#[trigger] comps[j])@.len() >= 1,
        forall|j: int, x: int| 0 <= j < comps.len() && #[trigger] comps[j]@.contains(x) ==> x < g.len(),
{
    let views = bitset_views(comps);
    assert forall|j: int| 0 <= j < comps.len() implies (#[trigger] comps[j])@.len() >= 1
        && forall|x: int| comps[j]@.contains(x) ==> x < g.len() by {
        assert(views[j] == comps[j]@);
        assert(is_component_of(g, rest, views[j]));
        let u = choose|u: int| rest.contains(u) && views[j] == component(g, rest, u);
        lemma_component_start(g, rest, u);
        comps[j].lemma_view_finite();
        if comps[j]@.len() == 0 {
            vstd::set_lib::lemma_set_empty_equivalency_len(comps[j]@);
        }
        assert forall|x: int| comps[j]@.contains(x) implies x < g.len() by {
            lemma_component_in_range(g, rest, u, x);
        }
    }
}

/// Whether removing `subset` leaves only components of at most `bound` vertices, each of width
/// at most `k`.
fn split_check(
    graph: &bitset::Graph,
    whole: &Graph,
    left: &BitSet,
    vertices: &BitSet,
    subset: &BitSet,
    k: usize,
    bound: usize,
) -> (r: bool)
    requires
        graph.wf(),
        whole.wf(),
        whole@ == graph@,
        graph@.len() * graph@.len() <= usize::MAX,
        shaped_for(*left, graph@.len() as int),
        left@ == Set::<int>::empty(),
        shaped_for(*vertices, graph@.len() as int),
        vertices@ == all_vertices(graph@.len() as int),
        shaped_for(*subset, graph@.len() as int),
        forall|x: int| #[trigger] subset@.contains(x) ==> 0 <= x < graph@.len(),
        subset@.len() < graph@.len(),
    ensures
        r == split_ok(graph@, subset@, k as int, bound as int),
{
    let ghost g = graph@;
    let ghost s = subset@;
    proof {
        graph.lemma_wf();
    }
    let n = graph.n();
    proof {
        subset.lemma_view_finite();
        lemma_shaped_same_variant(*vertices, *subset, n as int);
        lemma_some_left(s, n as int);
    }
    let complement = vertices.difference(subset);
    proof {
        assert(complement@ =~= rest_of(g, s));
    }
    let components = all_connected_component_bitset(graph, &complement);
    let ghost views = bitset_views(components@);
    let ghost rest = rest_of(g, s);
    proof {
        let x = choose|x: int| 0 <= x < n && !s.contains(x);
        assert(rest.contains(x));
        let j0 = choose|j: int| 0 <= j < views.len() && (#[trigger] views[j]).contains(x);
        assert forall|j: int| 0 <= j < components@.len() implies (#[trigger] components@[j]).wf() by {
            assert(shaped_for(components@[j], n as int));
        }
        lemma_split_ok_listed(g, s, k as int, bound as int, views);
        lemma_listed_components(g, rest, components@);
    }
    let max_size = max_size_all_components_bitset(&components);
    if max_size > bound {
        proof {
            let j = choose|j: int| 0 <= j < components@.len() && (#[trigger] components@[j])@.len() == max_size;
            assert(views[j] == components@[j]@);
        }
        return false;
    }
    proof {
        assert forall|j: int| 0 <= j < views.len() implies (#[trigger] views[j]).len() <= bound by {
            assert(views[j] == components@[j]@);
        }
    }
    let whole_n = n;
    components_within(whole, whole_n, left, &components, k)
}

/// The test for width at most `k` on a bitset graph.
fn fits_bitset(graph: &bitset::Graph, k: usize, adj_bound: bool) -> (r: bool)
    requires
        graph.wf(),
    ensures
        r == fits(graph@, k as int, adj_bound),
    decreases graph@.len(),
{
    let ghost g = graph@;
    proof {
        graph.lemma_wf();
    }
    let n = graph.n();
    if k >= n || n - k <= 1 {
        return true;
    }
    proof {
        lemma_small_n(n as int);
        if n >= 4203 {
            assert(n * 4203 <= n * n) by (nonlinear_arith)
                requires
                    n >= 4203,
            ;
        } else {
            assert(n * 4203 <= 4203 * 4203) by (nonlinear_arith)
                requires
                    n < 4203,
            ;
        }
        lemma_big_split_small(n as int);
    }
    let vertices = BitSet::full(n);
    let whole = Graph::BitSet(graph.duplicate());
    let left = BitSet::new(n);
    let small = k <= n / 4 || k >= n * 4203 / 10000;
    let size = if small {
        k + 1
    } else {
        n * 4203 / 10000 + 1
    };
    let subsets = combinations_bitset(&vertices, n, size);
    let ghost cs = combos(sorted_list(vertices@), size as nat);
    proof {
        assert(vertices@ =~= all_vertices(n as int));
        assert(lists_in_order(vertex_list(n as int), all_vertices(n as int))) by {
            assert forall|x: int| all_vertices(n as int).contains(x) implies exists|a: int|
                0 <= a < vertex_list(n as int).len() && vertex_list(n as int)[a] == x by {
                assert(vertex_list(n as int)[x] == x);
            }
        }
        crate::treewidth::exact::lemma_sorted_unique(vertex_list(n as int), sorted_list(vertices@), vertices@);
        assert(crate::treewidth::exact::increasing(vertex_list(n as int)));
    }
    let mut i: usize = 0;
    while i < subsets.len()
        invariant
            graph.wf(),
            g == graph@,
            is_graph(g),
            n == g.len(),
            n * n <= usize::MAX,
            n > k + 1,
            whole.wf(),
            whole@ == g,
            shaped_for(left, n as int),
            left@ == Set::<int>::empty(),
            shaped_for(vertices, n as int),
            vertices@ == all_vertices(n as int),
            small == (k <= n / 4 || k >= big_split(n as int)),
            size == if small {
                k + 1
            } else {
                big_split(n as int) + 1
            },
            size < n,
            crate::treewidth::exact::increasing(vertex_list(n as int)),
            cs == combos(vertex_list(n as int), size as nat),
            subsets@.len() == cs.len(),
            forall|j: int| 0 <= j < subsets@.len() ==> (#[trigger] subsets@[j])@ == seq_set(cs[j]),
            forall|j: int| 0 <= j < subsets@.len() ==> #[trigger] shaped_for(subsets@[j], n as int),
            i <= subsets@.len(),
            small ==> forall|j: int| 0 <= j < i ==> !#[trigger] split_ok(g, seq_set(cs[j]), k as int, (n - k) / 2),
            !small ==> !any_big(g, k as int, adj_bound, cs, i as int),
        decreases subsets@.len() - i,
    {
        let subset = &subsets[i];
        let ghost s = seq_set(cs[i as int]);
        proof {
            lemma_combos_props(vertex_list(n as int), size as nat, i as int);
            assert forall|x: int| #[trigger] s.contains(x) implies 0 <= x < n by {
                let t = choose|t: int| 0 <= t < cs[i as int].len() && cs[i as int][t] == x;
                assert(vertex_list(n as int).contains(cs[i as int][t]));
                let q = choose|q: int| 0 <= q < vertex_list(n as int).len() && vertex_list(n as int)[q] == cs[i as int][t];
            }
            crate::treewidth::exact::lemma_increasing_set_len(cs[i as int]);
            assert(shaped_for(subsets@[i as int], n as int));
        }
        let bound = if small || !adj_bound {
            (n - k) / 2
        } else {
            (n - subset.len() + 1) / 2
        };
        let ok = split_check(graph, &whole, &left, &vertices, subset, k, bound);
        if ok {
            if small {
                proof {
                    assert(cs == combos(vertex_list(n as int), (k + 1) as nat));
                    assert(split_ok(g, seq_set(cs[i as int]), k as int, (n - k) / 2));
                }
                return true;
            }
            proof {
                assert(lists_in_order(cs[i as int], s));
                crate::treewidth::exact::lemma_listing_len(sorted_list(s), s);
            }
            let fill = fill_in_graph_bitset(graph, subset);
            assert(fill@.len() == size);
            if fits_bitset(&fill, k, adj_bound) {
                proof {
                    assert(torso(g, s).len() == size);
                    assert(any_big(g, k as int, adj_bound, cs, i + 1));
                    lemma_any_big_mono(g, k as int, adj_bound, cs, i + 1, cs.len() as int);
                    assert(cs == combos(vertex_list(n as int), (big_split(n as int) + 1) as nat));
                }
                return true;
            }
        }
        proof {
            if !small {
                assert(!any_big(g, k as int, adj_bound, cs, i + 1));
            }
        }
        i = i + 1;
    }
    false
}

/// Whether the test for width at most `k` succeeds; when it does, the treewidth is at most `k`.
/// An adjacency-list graph is copied into bitsets first, and its large separators may leave
/// components of up to `(n - |S| + 1) / 2` vertices.
pub fn width_at_most(graph: &Graph, k: usize) -> (r: bool)
    requires
        graph.wf(),
    ensures
        r == fits(graph@, k as int, graph is AdjList),
        r ==> elim_width(graph@) <= k,
{
    let n = vertex_count(graph);
    proof {
        assert(graph@.len() == n);
        match graph {
            Graph::AdjList(g) => g.lemma_wf(),
            Graph::BitSet(g) => g.lemma_wf(),
        }
        if fits(graph@, k as int, graph is AdjList) {
            lemma_fits_sound(graph@, k as int, graph is AdjList);
        }
    }
    match graph {
        Graph::AdjList(g) => {
            let copy = bitset::Graph::from_adjlist(g);
            fits_bitset(&copy, k, true)
        },
        Graph::BitSet(g) => fits_bitset(g, k, false),
    }
}

/// One more than the largest `k`, from `n` down, for which the test fails: never less than the
/// treewidth. The test must fail for `k = 0` (it holds there for graphs of at most one vertex
/// and for graphs without edges).
pub fn treewidth(graph: &Graph) -> (r: usize)
    requires
        graph.wf(),
        !fits(graph@, 0, graph is AdjList),
    ensures
        r == separator_search_result(graph@, graph@.len() as int, graph is AdjList),
        elim_width(graph@) <= r,
{
    let ghost g = graph@;
    let ghost adj = graph is AdjList;
    let n = vertex_count(graph);
    proof {
        lemma_small_n(n as int);
    }
    let mut k = n;
    let mut ok = width_at_most(graph, k);
    while ok
        invariant
            graph.wf(),
            g == graph@,
            adj == graph is AdjList,
            !fits(g, 0, adj),
            k <= n,
            n <= usize::MAX - 63,
            ok == fits(g, k as int, adj),
            separator_search_result(g, n as int, adj) == separator_search_result(g, k as int, adj),
        decreases k,
    {
        k = k - 1;
        ok = width_at_most(graph, k);
    }
    proof {
        match graph {
            Graph::AdjList(h) => h.lemma_wf(),
            Graph::BitSet(h) => h.lemma_wf(),
        }
        lemma_improved_width_above(g, adj);
    }
    k + 1
}

} // verus!
