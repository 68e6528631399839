//! Why a successful separator test bounds the treewidth.
//!
//! Removing a set `S` splits the rest of the graph into components. Eliminating the components
//! one after another, each in an order that is narrow on its own, costs no more than each order
//! does alone, since no walk through one component enters another. What remains is `S`: when
//! `S` is small every elimination there is cheap, and otherwise the vertices of `S` reach,
//! through what is already eliminated, only vertices that are adjacent in the graph that `S`
//! induces with the edges its components add.

use vstd::prelude::*;
use crate::graph::model::{is_graph, Nbrs};
use crate::treewidth::exact::dynamic_prog::all_vertices;
use crate::treewidth::exact::orders::{
    is_ordering, lemma_dp_attained, lemma_dp_least_order_width, lemma_order_width_concat,
    lemma_q_bounded, lemma_rec_attained, order_width,
};
use crate::treewidth::exact::improved_rec::{
    any_big, augment, big_split, fits, separator_search_result, rest_of, split_ok, torso, torso_edge, vertex_list,
};
use crate::treewidth::exact::reach::{
    component, is_walk, lemma_component_in_range, lemma_component_same, lemma_component_start,
    lemma_component_step, q_set, touches,
};
use crate::treewidth::exact::{
    combos, increasing, lemma_combos_props, lemma_increasing_set_len, lemma_listing_len, seq_set, sorted_list,
};
use crate::treewidth::exact::orders::lemma_sorted_list_exists;
use crate::utils::bitset::lists_in_order;
use crate::treewidth::exact::rec::rec_width;
use crate::treewidth::exact::elimination::lemma_elim_width_is_dp;
use crate::treewidth::width::elim_width;

verus! {

/// Whether no vertex of `c` has a neighbour in `a`.
pub open spec fn apart(g: Nbrs, c: Set<int>, a: Set<int>) -> bool {
    forall|x: int, y: int| #![trigger g[x].contains(y), a.contains(y)] c.contains(x) && a.contains(y) ==> !g[x].contains(y)
}

/// A walk that starts in `c` and runs through `a ∪ p`, where `p ⊆ c` and `c` is apart from `a`,
/// runs through `p` alone.
proof fn lemma_walk_confined(g: Nbrs, a: Set<int>, p: Set<int>, c: Set<int>, w: Seq<int>, j: int)
    requires
        is_walk(g, a.union(p), w),
        c.contains(w[0]),
        p.subset_of(c),
        apart(g, c, a),
        0 <= j < w.len(),
    ensures
        forall|i: int| 1 <= i <= j ==> p.contains(#[trigger] w[i]),
    decreases j,
{
    if j >= 1 {
        lemma_walk_confined(g, a, p, c, w, j - 1);
        let i = j - 1;
        assert(g[w[i]].contains(w[i + 1]));
        assert(a.union(p).contains(w[j]));
        if !p.contains(w[j]) {
            assert(c.contains(w[j - 1]));
            assert(a.contains(w[j]));
        }
    }
}

/// Seen from a vertex of `c`, eliminating a part `a` apart from `c` changes nothing.
proof fn lemma_q_apart(g: Nbrs, a: Set<int>, p: Set<int>, c: Set<int>, v: int)
    requires
        c.contains(v),
        p.subset_of(c),
        apart(g, c, a),
    ensures
        q_set(g, a.union(p), v).subset_of(q_set(g, p, v)),
        q_set(g, a.union(p), v).len() <= q_set(g, p, v).len(),
{
    assert(component(g, a.union(p), v) =~= component(g, p, v)) by {
        assert forall|x: int| #[trigger] component(g, a.union(p), v).contains(x) implies component(g, p, v).contains(x) by {
            let w = choose|w: Seq<int>| #[trigger] is_walk(g, a.union(p), w) && w[0] == v && w.last() == x;
            lemma_walk_confined(g, a, p, c, w, w.len() - 1);
            assert(is_walk(g, p, w));
        }
        assert forall|x: int| #[trigger] component(g, p, v).contains(x) implies component(g, a.union(p), v).contains(x) by {
            let w = choose|w: Seq<int>| #[trigger] is_walk(g, p, w) && w[0] == v && w.last() == x;
            assert(is_walk(g, a.union(p), w));
        }
    }
    lemma_q_bounded(g, p, v);
    vstd::set_lib::lemma_len_subset(q_set(g, a.union(p), v), q_set(g, p, v));
}

/// Eliminating the vertices of `c` after a part `a` apart from `c` costs no more than
/// eliminating them first.
proof fn lemma_order_width_apart(g: Nbrs, a: Set<int>, c: Set<int>, p: Seq<int>)
    requires
        forall|i: int| 0 <= i < p.len() ==> c.contains(#[trigger] p[i]),
        apart(g, c, a),
    ensures
        order_width(g, a, p) <= order_width(g, Set::empty(), p),
    decreases p.len(),
{
    if p.len() > 0 {
        let d = p.drop_last();
        lemma_order_width_apart(g, a, c, d);
        assert(d.to_set().subset_of(c)) by {
            assert forall|x: int| d.to_set().contains(x) implies c.contains(x) by {
                let i = choose|i: int| 0 <= i < d.len() && d[i] == x;
                assert(p[i] == x);
            }
        }
        assert(c.contains(p.last())) by {
            assert(p[p.len() - 1] == p.last());
        }
        lemma_q_apart(g, a, d.to_set(), c, p.last());
        assert(Set::<int>::empty().union(d.to_set()) =~= d.to_set());
    }
}

/// A component of `r` is part of `r`, or the vertex it starts from.
proof fn lemma_component_within(g: Nbrs, r: Set<int>, v: int, x: int)
    requires
        component(g, r, v).contains(x),
    ensures
        x == v || r.contains(x),
{
    let w = choose|w: Seq<int>| #[trigger] is_walk(g, r, w) && w[0] == v && w.last() == x;
    if w.len() > 1 {
        assert(r.contains(w[w.len() - 1]));
    }
}

/// Whether `u` is a part of `r` made of whole components of `r`.
pub open spec fn whole_components(g: Nbrs, r: Set<int>, u: Set<int>) -> bool {
    &&& u.subset_of(r)
    &&& forall|x: int, y: int| #![trigger u.contains(x), component(g, r, x).contains(y)]
        u.contains(x) && component(g, r, x).contains(y) ==> u.contains(y)
}

/// A part of `r` made of whole components, each of which the recursion over balanced splits
/// eliminates within width `k`, has an ordering of width at most `k`.
proof fn lemma_order_components(g: Nbrs, r: Set<int>, u: Set<int>, k: int) -> (p: Seq<int>)
    requires
        is_graph(g),
        g.len() <= usize::MAX,
        k >= 0,
        u.finite(),
        whole_components(g, r, u),
        forall|x: int| #[trigger] r.contains(x) ==> 0 <= x < g.len(),
        forall|x: int| #[trigger] r.contains(x) ==> rec_width(g, Set::empty(), component(g, r, x)) <= k,
    ensures
        is_ordering(p, u),
        order_width(g, Set::empty(), p) <= k,
    decreases u.len(),
{
    if u.len() == 0 {
        let p = Seq::<int>::empty();
        assert(p.to_set() =~= u) by {
            assert forall|x: int| !u.contains(x) by {
                if u.contains(x) {
                    assert(u.len() > 0) by {
                        vstd::set_lib::lemma_set_empty_equivalency_len(u);
                    }
                }
            }
        }
        p
    } else {
        let x = u.choose();
        assert(u.contains(x)) by {
            vstd::set_lib::lemma_set_empty_equivalency_len(u);
        }
        let c = component(g, r, x);
        assert(r.contains(x));
        assert(c.subset_of(u)) by {
            assert forall|y: int| c.contains(y) implies u.contains(y) by {
                assert(u.contains(x) && component(g, r, x).contains(y));
            }
        }
        lemma_component_start(g, r, x);
        assert forall|y: int| #[trigger] c.contains(y) implies 0 <= y < g.len() by {
            lemma_component_in_range(g, r, x, y);
        }
        vstd::set_lib::lemma_len_subset(c, u);
        assert(c.finite()) by {
            vstd::set_lib::lemma_len_subset(c, u);
        }
        assert(c.len() >= 1) by {
            vstd::set_lib::lemma_set_empty_equivalency_len(c);
        }
        let pc = lemma_rec_attained(g, Set::empty(), c);
        let rest = u.difference(c);
        assert(whole_components(g, r, rest)) by {
            assert forall|z: int, y: int| #![trigger rest.contains(z), component(g, r, z).contains(y)]
                rest.contains(z) && component(g, r, z).contains(y) implies rest.contains(y) by {
                assert(u.contains(z) && component(g, r, z).contains(y));
                if c.contains(y) {
                    lemma_component_in_range(g, r, x, y);
                    assert(r.contains(z));
                    lemma_component_same(g, r, z, x, y);
                    lemma_component_start(g, r, z);
                    assert(c.contains(z));
                }
            }
        }
        vstd::set_lib::lemma_set_difference_len(u, c);
        assert(u.intersect(c) =~= c);
        let pr = lemma_order_components(g, r, rest, k);
        let p = pr + pc;
        assert forall|i: int, j: int| 0 <= i < pr.len() && 0 <= j < pc.len() implies pr[i] != pc[j] by {
            assert(pr.to_set().contains(pr[i]));
            assert(pc.to_set().contains(pc[j]));
        }
        vstd::seq_lib::lemma_no_dup_in_concat(pr, pc);
        vstd::seq_lib::seq_to_set_distributes_over_add(pr, pc);
        assert(p.to_set() =~= u);
        lemma_order_width_concat(g, Set::empty(), pr, pc);
        assert(Set::<int>::empty().union(pr.to_set()) =~= rest);
        assert(apart(g, c, rest)) by {
            assert forall|a: int, b: int| #![trigger g[a].contains(b), rest.contains(b)] c.contains(a) && rest.contains(b) implies !g[a].contains(b) by {
                if g[a].contains(b) {
                    lemma_component_step(g, r, x, a, b);
                }
            }
        }
        assert forall|i: int| 0 <= i < pc.len() implies c.contains(#[trigger] pc[i]) by {
            assert(pc.to_set().contains(pc[i]));
        }
        lemma_order_width_apart(g, rest, c, pc);
        p
    }
}

/// When every vertex outside `left` is in `s`, and `s` has at most `k + 1` vertices, eliminating
/// vertices of `s` costs at most `k` each.
proof fn lemma_order_width_within(g: Nbrs, left: Set<int>, p: Seq<int>, s: Set<int>, k: int)
    requires
        k >= 0,
        s.finite(),
        s.len() <= k + 1,
        forall|i: int| 0 <= i < p.len() ==> s.contains(#[trigger] p[i]),
        forall|w: int| 0 <= w < g.len() && !left.contains(w) ==> s.contains(w),
    ensures
        order_width(g, left, p) <= k,
    decreases p.len(),
{
    if p.len() > 0 {
        let d = p.drop_last();
        assert forall|i: int| 0 <= i < d.len() implies s.contains(#[trigger] d[i]) by {
            assert(d[i] == p[i]);
        }
        lemma_order_width_within(g, left, d, s, k);
        let v = p.last();
        assert(s.contains(v)) by {
            assert(p[p.len() - 1] == v);
        }
        let q = q_set(g, left.union(d.to_set()), v);
        assert(q.subset_of(s.remove(v)));
        vstd::set_lib::lemma_len_subset(q, s.remove(v));
    }
}

/// Removing `s` from a graph leaves the part `r`. When every component of `r` is eliminated
/// within width `k` by the recursion over balanced splits, and `s` has an ordering of width at
/// most `k` after `r`, the treewidth is at most `k`.
pub proof fn lemma_separated_width(g: Nbrs, s: Set<int>, r: Set<int>, k: int, ps: Seq<int>)
    requires
        is_graph(g),
        g.len() <= usize::MAX,
        k >= 0,
        r == all_vertices(g.len() as int).difference(s),
        forall|x: int| #[trigger] r.contains(x) ==> rec_width(g, Set::empty(), component(g, r, x)) <= k,
        is_ordering(ps, s),
        forall|x: int| #[trigger] s.contains(x) ==> 0 <= x < g.len(),
        order_width(g, r, ps) <= k,
    ensures
        elim_width(g) <= k,
{
    let n = g.len() as int;
    vstd::set_lib::lemma_int_range(0, n);
    assert(all_vertices(n) =~= vstd::set_lib::set_int_range(0, n));
    assert(r.finite()) by {
        vstd::set_lib::lemma_len_subset(r, all_vertices(n));
    }
    assert(whole_components(g, r, r)) by {
        assert forall|x: int, y: int| #![trigger r.contains(x), component(g, r, x).contains(y)]
            r.contains(x) && component(g, r, x).contains(y) implies r.contains(y) by {
            lemma_component_within(g, r, x, y);
        }
    }
    let pr = lemma_order_components(g, r, r, k);
    let p = pr + ps;
    assert forall|i: int, j: int| 0 <= i < pr.len() && 0 <= j < ps.len() implies pr[i] != ps[j] by {
        assert(pr.to_set().contains(pr[i]));
        assert(ps.to_set().contains(ps[j]));
    }
    vstd::seq_lib::lemma_no_dup_in_concat(pr, ps);
    vstd::seq_lib::seq_to_set_distributes_over_add(pr, ps);
    assert(p.to_set() =~= all_vertices(n));
    lemma_order_width_concat(g, Set::empty(), pr, ps);
    assert(Set::<int>::empty().union(pr.to_set()) =~= r);
    lemma_dp_least_order_width(g, p);
    lemma_elim_width_is_dp(g);
}

/// A graph with at most `k + 1` vertices has treewidth at most `k`.
pub proof fn lemma_small_graph_width(g: Nbrs, k: int)
    requires
        is_graph(g),
        g.len() <= usize::MAX,
        k >= 0,
        g.len() <= k + 1,
    ensures
        elim_width(g) <= k,
{
    let n = g.len() as int;
    let all = all_vertices(n);
    vstd::set_lib::lemma_int_range(0, n);
    assert(all =~= vstd::set_lib::set_int_range(0, n));
    let p = lemma_dp_attained(g, all);
    assert forall|i: int| 0 <= i < p.len() implies all.contains(#[trigger] p[i]) by {
        assert(p.to_set().contains(p[i]));
    }
    lemma_order_width_within(g, Set::empty(), p, all, k);
    lemma_dp_least_order_width(g, p);
    lemma_elim_width_is_dp(g);
}

/// The vertices of `s` numbered `pp` in increasing order.
pub open spec fn lift_torso(s: Set<int>, pp: Set<int>) -> Set<int> {
    pp.map(|i: int| sorted_list(s)[i] as int)
}

/// The grown set only grows.
proof fn lemma_augment_grows(g: Nbrs, l: Seq<usize>, c: Set<int>, v1: int, v2: int)
    requires
        0 <= v1 <= v2,
    ensures
        augment(g, l, c, v1).subset_of(augment(g, l, c, v2)),
    decreases v2,
{
    if v1 < v2 {
        lemma_augment_grows(g, l, c, v1, v2 - 1);
    }
}

/// A vertex of the list with a neighbour in the component ends up in its grown set.
proof fn lemma_augment_touching(g: Nbrs, l: Seq<usize>, c: Set<int>, a: int, m: int)
    requires
        0 <= a < m,
        touches(g, l[a] as int, c),
    ensures
        augment(g, l, c, m).contains(l[a] as int),
{
    lemma_augment_grows(g, l, c, 0, a);
    let y = choose|y: int| #[trigger] g[l[a] as int].contains(y) && c.contains(y);
    assert(augment(g, l, c, a).contains(y));
    assert(touches(g, l[a] as int, augment(g, l, c, a)));
    lemma_augment_grows(g, l, c, a + 1, m);
}

/// Vertices of `s` adjacent in the graph are adjacent in the torso.
proof fn lemma_torso_edge_adj(g: Nbrs, s: Set<int>, i: int, j: int)
    requires
        is_graph(g),
        0 <= i < sorted_list(s).len(),
        0 <= j < sorted_list(s).len(),
        g[sorted_list(s)[i] as int].contains(sorted_list(s)[j] as int),
        0 <= sorted_list(s)[i] < g.len(),
    ensures
        torso(g, s)[i].contains(j),
{
    let l = sorted_list(s);
    assert(i != j);
    assert(g[l[j] as int].contains(l[i] as int));
}

/// Vertices of `s` with neighbours in one component of the rest are adjacent in the torso.
proof fn lemma_torso_edge_comp(g: Nbrs, s: Set<int>, i: int, j: int, u: int)
    requires
        i != j,
        0 <= i < sorted_list(s).len(),
        0 <= j < sorted_list(s).len(),
        rest_of(g, s).contains(u),
        touches(g, sorted_list(s)[i] as int, component(g, rest_of(g, s), u)),
        touches(g, sorted_list(s)[j] as int, component(g, rest_of(g, s), u)),
    ensures
        torso(g, s)[i].contains(j),
{
    let l = sorted_list(s);
    let m = l.len() as int;
    let c = component(g, rest_of(g, s), u);
    lemma_augment_touching(g, l, c, i, m);
    lemma_augment_touching(g, l, c, j, m);
    if i < j {
        assert(torso_edge(g, s, i, j));
    } else {
        assert(torso_edge(g, s, j, i));
    }
}

/// The torso is a graph.
pub proof fn lemma_torso_graph(g: Nbrs, s: Set<int>)
    ensures
        is_graph(torso(g, s)),
        torso(g, s).len() == sorted_list(s).len(),
{
}

/// Walking from a vertex of `s` through the rest and the vertices of `s` numbered `pp`, the walk
/// is always at a vertex of `s` that the torso reaches from the start through `pp`, or in a
/// component of the rest that such a vertex touches.
proof fn lemma_walk_in_torso(g: Nbrs, s: Set<int>, pp: Set<int>, x: int, w: Seq<int>, j: int) -> (i: int)
    requires
        is_graph(g),
        lists_in_order(sorted_list(s), s),
        forall|y: int| #[trigger] s.contains(y) ==> 0 <= y < g.len(),
        0 <= x < sorted_list(s).len(),
        forall|y: int| #[trigger] pp.contains(y) ==> 0 <= y < sorted_list(s).len(),
        is_walk(g, rest_of(g, s).union(lift_torso(s, pp)), w),
        w[0] == sorted_list(s)[x] as int,
        0 <= j < w.len(),
    ensures
        0 <= i < sorted_list(s).len(),
        component(torso(g, s), pp, x).contains(i),
        w[j] == sorted_list(s)[i] as int || (rest_of(g, s).contains(w[j]) && touches(
            g,
            sorted_list(s)[i] as int,
            component(g, rest_of(g, s), w[j]),
        )),
    decreases j,
{
    let l = sorted_list(s);
    let r = rest_of(g, s);
    let t = torso(g, s);
    if j == 0 {
        lemma_component_start(t, pp, x);
        x
    } else {
        let i = lemma_walk_in_torso(g, s, pp, x, w, j - 1);
        let cur = w[j - 1];
        let nx = w[j];
        let h = j - 1;
        assert(g[w[h]].contains(w[h + 1]));
        assert(r.union(lift_torso(s, pp)).contains(w[j]));
        assert(s.contains(l[i] as int));
        if r.contains(nx) {
            if cur == l[i] as int {
                lemma_component_start(g, r, nx);
                assert(g[l[i] as int].contains(nx));
                i
            } else {
                assert(0 <= cur < g.len());
                lemma_component_start(g, r, cur);
                lemma_component_step(g, r, cur, cur, nx);
                lemma_component_start(g, r, nx);
                lemma_component_same(g, r, nx, cur, nx);
                i
            }
        } else {
            let jj = choose|jj: int| pp.contains(jj) && #[trigger] (l[jj] as int) == nx;
            assert(pp.contains(jj) && l[jj] as int == nx);
            if cur == l[i] as int {
                lemma_torso_edge_adj(g, s, i, jj);
                lemma_component_step(t, pp, x, i, jj);
                jj
            } else {
                assert(0 <= cur < g.len());
                lemma_component_start(g, r, cur);
                assert(g[l[jj] as int].contains(cur));
                assert(touches(g, l[jj] as int, component(g, r, cur)));
                if jj != i {
                    lemma_torso_edge_comp(g, s, i, jj, cur);
                    lemma_component_step(t, pp, x, i, jj);
                }
                jj
            }
        }
    }
}

/// What a vertex of `s` reaches through the rest and the vertices of `s` numbered `pp` are
/// vertices of `s` whose numbers the torso reaches from its number through `pp`.
proof fn lemma_q_torso(g: Nbrs, s: Set<int>, pp: Set<int>, x: int)
    requires
        is_graph(g),
        lists_in_order(sorted_list(s), s),
        forall|y: int| #[trigger] s.contains(y) ==> 0 <= y < g.len(),
        0 <= x < sorted_list(s).len(),
        !pp.contains(x),
        forall|y: int| #[trigger] pp.contains(y) ==> 0 <= y < sorted_list(s).len(),
    ensures
        q_set(g, rest_of(g, s).union(lift_torso(s, pp)), sorted_list(s)[x] as int).subset_of(
            q_set(torso(g, s), pp, x).map(|i: int| sorted_list(s)[i] as int),
        ),
{
    let l = sorted_list(s);
    let r = rest_of(g, s);
    let t = torso(g, s);
    let f = |i: int| sorted_list(s)[i] as int;
    let left = r.union(lift_torso(s, pp));
    let v = l[x] as int;
    let ct = component(t, pp, x);
    assert forall|w: int| #[trigger] q_set(g, left, v).contains(w) implies q_set(t, pp, x).map(f).contains(w) by {
        let cg = component(g, left, v);
        let z = choose|z: int| #[trigger] g[w].contains(z) && cg.contains(z);
        let wk = choose|wk: Seq<int>| #[trigger] is_walk(g, left, wk) && wk[0] == v && wk.last() == z;
        let i = lemma_walk_in_torso(g, s, pp, x, wk, wk.len() - 1);
        assert(wk[wk.len() - 1] == z);
        assert(s.contains(w));
        let y = choose|y: int| 0 <= y < l.len() && l[y] == w;
        if pp.contains(y) {
            assert(lift_torso(s, pp).contains(w)) by {
                assert(f(y) == w);
            }
        }
        assert(y != x);
        assert(!ct.contains(y)) by {
            if ct.contains(y) {
                lemma_component_within(t, pp, x, y);
            }
        }
        assert(i != y);
        if z == l[i] as int {
            lemma_torso_edge_adj(g, s, y, i);
        } else {
            lemma_component_start(g, r, z);
            assert(touches(g, l[y] as int, component(g, r, z)));
            lemma_torso_edge_comp(g, s, y, i, z);
        }
        assert(touches(t, y, ct));
        assert(q_set(t, pp, x).contains(y));
        assert(f(y) == w);
    }
}

/// Eliminating the vertices of `s` after the rest, in the order of torso numbers `q`, costs no
/// more than eliminating `q` in the torso.
proof fn lemma_torso_order(g: Nbrs, s: Set<int>, q: Seq<int>)
    requires
        is_graph(g),
        lists_in_order(sorted_list(s), s),
        forall|y: int| #[trigger] s.contains(y) ==> 0 <= y < g.len(),
        q.no_duplicates(),
        forall|i: int| 0 <= i < q.len() ==> 0 <= #[trigger] q[i] < sorted_list(s).len(),
    ensures
        order_width(g, rest_of(g, s), q.map_values(|i: int| sorted_list(s)[i] as int)) <= order_width(
            torso(g, s),
            Set::empty(),
            q,
        ),
    decreases q.len(),
{
    if q.len() > 0 {
        let f = |i: int| sorted_list(s)[i] as int;
        let t = torso(g, s);
        let d = q.drop_last();
        let x = q.last();
        let pq = q.map_values(f);
        assert(d.no_duplicates());
        assert forall|i: int| 0 <= i < d.len() implies 0 <= #[trigger] d[i] < sorted_list(s).len() by {
            assert(d[i] == q[i]);
        }
        lemma_torso_order(g, s, d);
        assert(pq.drop_last() =~= d.map_values(f));
        assert(pq.last() == f(x));
        let dset = d.to_set();
        assert(d.map_values(f).to_set() =~= lift_torso(s, dset)) by {
            assert forall|y: int| #[trigger] d.map_values(f).to_set().contains(y) == lift_torso(s, dset).contains(y) by {
                if d.map_values(f).to_set().contains(y) {
                    let i = choose|i: int| 0 <= i < d.map_values(f).len() && d.map_values(f)[i] == y;
                    assert(dset.contains(d[i]));
                    assert(f(d[i]) == y);
                }
                if lift_torso(s, dset).contains(y) {
                    let a = choose|a: int| dset.contains(a) && f(a) == y;
                    let i = choose|i: int| 0 <= i < d.len() && d[i] == a;
                    assert(d.map_values(f)[i] == y);
                }
            }
        }
        assert(!dset.contains(x)) by {
            if dset.contains(x) {
                let i = choose|i: int| 0 <= i < d.len() && d[i] == x;
                assert(q[i] == q[q.len() - 1]);
            }
        }
        assert forall|y: int| #[trigger] dset.contains(y) implies 0 <= y < sorted_list(s).len() by {
            let i = choose|i: int| 0 <= i < d.len() && d[i] == y;
        }
        assert(0 <= x < sorted_list(s).len()) by {
            assert(q[q.len() - 1] == x);
        }
        lemma_q_torso(g, s, dset, x);
        let qt = q_set(t, dset, x);
        lemma_q_bounded(t, dset, x);
        vstd::set_lib::lemma_map_size_bound(qt, qt.map(f), f);
        let qg = q_set(g, rest_of(g, s).union(lift_torso(s, dset)), f(x));
        vstd::set_lib::lemma_len_subset(qg, qt.map(f));
        assert(Set::<int>::empty().union(dset) =~= dset);
    }
}

/// A separator test with a large separator succeeds only when the treewidth is at most `k`,
/// given that the torso's treewidth is.
pub proof fn lemma_torso_split_width(g: Nbrs, s: Set<int>, k: int, bound: int)
    requires
        is_graph(g),
        g.len() <= usize::MAX,
        k >= 0,
        forall|y: int| #[trigger] s.contains(y) ==> 0 <= y < g.len(),
        split_ok(g, s, k, bound),
        elim_width(torso(g, s)) <= k,
    ensures
        elim_width(g) <= k,
{
    let n = g.len() as int;
    let l = sorted_list(s);
    let f = |i: int| sorted_list(s)[i] as int;
    let t = torso(g, s);
    let r = rest_of(g, s);
    lemma_sorted_list_exists(s, n);
    lemma_listing_len(l, s);
    vstd::set_lib::lemma_int_range(0, n);
    assert(s.subset_of(vstd::set_lib::set_int_range(0, n)));
    vstd::set_lib::lemma_len_subset(s, vstd::set_lib::set_int_range(0, n));
    let m = l.len() as int;
    lemma_torso_graph(g, s);
    lemma_elim_width_is_dp(t);
    vstd::set_lib::lemma_int_range(0, m);
    assert(all_vertices(m) =~= vstd::set_lib::set_int_range(0, m));
    let q = lemma_dp_attained(t, all_vertices(m));
    assert forall|i: int| 0 <= i < q.len() implies 0 <= #[trigger] q[i] < m by {
        assert(q.to_set().contains(q[i]));
    }
    lemma_torso_order(g, s, q);
    let ps = q.map_values(f);
    assert(ps.no_duplicates()) by {
        assert forall|a: int, b: int| 0 <= a < ps.len() && 0 <= b < ps.len() && a != b implies ps[a] != ps[b] by {
            assert(q[a] != q[b]);
            if q[a] < q[b] {
                assert(l[q[a]] < l[q[b]]);
            } else {
                assert(l[q[b]] < l[q[a]]);
            }
        }
    }
    assert(ps.to_set() =~= s) by {
        assert forall|y: int| #[trigger] ps.to_set().contains(y) == s.contains(y) by {
            if ps.to_set().contains(y) {
                let i = choose|i: int| 0 <= i < ps.len() && ps[i] == y;
                assert(s.contains(l[q[i]] as int));
            }
            if s.contains(y) {
                let a = choose|a: int| 0 <= a < l.len() && l[a] == y;
                assert(q.to_set().contains(a));
                let i = choose|i: int| 0 <= i < q.len() && q[i] == a;
                assert(ps[i] == y);
            }
        }
    }
    assert forall|x: int| #[trigger] r.contains(x) implies rec_width(g, Set::empty(), component(g, r, x)) <= k by {
        assert(rest_of(g, s).contains(x));
    }
    lemma_separated_width(g, s, r, k, ps);
}

/// A separator test with at most `k + 1` vertices succeeds only when the treewidth is at most
/// `k`.
pub proof fn lemma_small_split_width(g: Nbrs, s: Set<int>, k: int, bound: int)
    requires
        is_graph(g),
        g.len() <= usize::MAX,
        k >= 0,
        s.finite(),
        s.len() <= k + 1,
        forall|y: int| #[trigger] s.contains(y) ==> 0 <= y < g.len(),
        split_ok(g, s, k, bound),
    ensures
        elim_width(g) <= k,
{
    let r = rest_of(g, s);
    let ps = lemma_dp_attained(g, s);
    assert forall|i: int| 0 <= i < ps.len() implies s.contains(#[trigger] ps[i]) by {
        assert(ps.to_set().contains(ps[i]));
    }
    lemma_order_width_within(g, r, ps, s, k);
    assert forall|x: int| #[trigger] r.contains(x) implies rec_width(g, Set::empty(), component(g, r, x)) <= k by {
        assert(rest_of(g, s).contains(x));
    }
    lemma_separated_width(g, s, r, k, ps);
}

/// A large separator that the test accepts among the first `i` listed.
proof fn lemma_any_big_index(g: Nbrs, k: int, adj_bound: bool, cs: Seq<Seq<usize>>, i: int) -> (j: int)
    requires
        i <= cs.len(),
        any_big(g, k, adj_bound, cs, i),
    ensures
        0 <= j < i,
        split_ok(
            g,
            seq_set(cs[j]),
            k,
            if adj_bound {
                (g.len() - seq_set(cs[j]).len() + 1) / 2
            } else {
                (g.len() - k) / 2
            },
        ),
        torso(g, seq_set(cs[j])).len() < g.len(),
        fits(torso(g, seq_set(cs[j])), k, adj_bound),
    decreases i,
{
    if any_big(g, k, adj_bound, cs, i - 1) {
        lemma_any_big_index(g, k, adj_bound, cs, i - 1)
    } else {
        i - 1
    }
}

/// A selection of vertices is a set of vertices of the graph with as many elements as the
/// selection has entries.
proof fn lemma_selection_vertices(n: int, k: nat, i: int)
    requires
        0 <= n <= usize::MAX,
        0 <= i < combos(vertex_list(n), k).len(),
    ensures
        seq_set(combos(vertex_list(n), k)[i]).finite(),
        seq_set(combos(vertex_list(n), k)[i]).len() == k,
        forall|y: int| #[trigger] seq_set(combos(vertex_list(n), k)[i]).contains(y) ==> 0 <= y < n,
{
    let l = vertex_list(n);
    let c = combos(l, k)[i];
    assert(increasing(l));
    lemma_combos_props(l, k, i);
    lemma_increasing_set_len(c);
    assert forall|y: int| #[trigger] seq_set(c).contains(y) implies 0 <= y < n by {
        let t = choose|t: int| 0 <= t < c.len() && c[t] == y;
        assert(l.contains(c[t]));
        let a = choose|a: int| 0 <= a < l.len() && l[a] == c[t];
        assert(l[a] == a as usize);
    }
}

/// The separator test succeeds for `k` only on graphs of treewidth at most `k`.
pub proof fn lemma_fits_sound(g: Nbrs, k: int, adj_bound: bool)
    requires
        is_graph(g),
        g.len() <= usize::MAX,
        k >= 0,
        fits(g, k, adj_bound),
    ensures
        elim_width(g) <= k,
    decreases g.len(),
{
    let n = g.len() as int;
    if n <= k + 1 {
        lemma_small_graph_width(g, k);
    } else if k <= n / 4 || k >= big_split(n) {
        let cs = combos(vertex_list(n), (k + 1) as nat);
        let i = choose|i: int| 0 <= i < cs.len() && #[trigger] split_ok(g, seq_set(cs[i]), k, (n - k) / 2);
        lemma_selection_vertices(n, (k + 1) as nat, i);
        lemma_small_split_width(g, seq_set(cs[i]), k, (n - k) / 2);
    } else {
        let cs = combos(vertex_list(n), (big_split(n) + 1) as nat);
        let j = lemma_any_big_index(g, k, adj_bound, cs, cs.len() as int);
        let sep = seq_set(cs[j]);
        lemma_selection_vertices(n, (big_split(n) + 1) as nat, j);
        lemma_torso_graph(g, sep);
        lemma_fits_sound(torso(g, sep), k, adj_bound);
        let bound = if adj_bound {
            (n - sep.len() + 1) / 2
        } else {
            (n - k) / 2
        };
        lemma_torso_split_width(g, sep, k, bound);
    }
}

/// Counting down from `k + 1`, where the test succeeds, the width the separator recursion
/// reports is never below the treewidth.
proof fn lemma_improved_width_from(g: Nbrs, k: int, adj_bound: bool)
    requires
        is_graph(g),
        g.len() <= usize::MAX,
        k >= 0,
        fits(g, k + 1, adj_bound),
    ensures
        elim_width(g) <= separator_search_result(g, k, adj_bound),
    decreases k,
{
    lemma_fits_sound(g, k + 1, adj_bound);
    if k > 0 && fits(g, k, adj_bound) {
        lemma_improved_width_from(g, k - 1, adj_bound);
    }
}

/// The width that the recursion over separators reports is never below the treewidth: each
/// test it passes on the way down shows an elimination order of that width.
pub proof fn lemma_improved_width_above(g: Nbrs, adj_bound: bool)
    requires
        is_graph(g),
        g.len() <= usize::MAX,
    ensures
        elim_width(g) <= separator_search_result(g, g.len() as int, adj_bound),
{
    lemma_improved_width_from(g, g.len() as int, adj_bound);
}

} // verus!
