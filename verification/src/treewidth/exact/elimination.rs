//! Elimination orders and vertex orderings have the same widths.
//!
//! Eliminating a vertex `v` joins its neighbours; in the graph left behind, a vertex reaches
//! through a set of eliminated vertices exactly what it reaches in the full graph through
//! that set and `v`. So the cost of each step of an elimination order is the number of vertices
//! its vertex reaches through the vertices eliminated before it, and the treewidth, the least
//! width of an elimination order, is the value of the dynamic program.

use vstd::prelude::*;
use crate::graph::model::{degree, elim_view, is_graph, lemma_elim_graph, shift, unshift, Nbrs};
use crate::treewidth::exact::dynamic_prog::{all_vertices, dp_width};
use crate::treewidth::exact::orders::{
    is_ordering, lemma_dp_attained, lemma_dp_below, lemma_dp_equals_rec, lemma_order_width_concat,
    lemma_q_bounded, order_width,
};
use crate::treewidth::exact::reach::{
    closed_in, component, is_walk, lemma_closed_holds_component, lemma_component_in_range,
    lemma_component_start, lemma_component_step, q_set,
};
use crate::treewidth::exact::rec::rec_width;
use crate::treewidth::width::{
    best_first, elim_width, first_cost, heuristic_width, lemma_elim_step, lemma_heuristic_upper_bound, max_nat,
    HeuristicAlgorithm,
};

verus! {

/// The vertices of `s`, numbered as they were before vertex `v` was removed.
pub open spec fn lifted(s: Set<int>, v: int) -> Set<int> {
    s.map(|x: int| unshift(x, v))
}

proof fn lemma_unshift_injective(v: int)
    ensures
        vstd::relations::injective(|x: int| unshift(x, v)),
{
    assert forall|a: int, b: int| #[trigger] unshift(a, v) == #[trigger] unshift(b, v) implies a == b by {}
}

/// A vertex other than `v` is in the lifted set exactly when its number without `v` is in `s`.
proof fn lemma_lifted_contains(s: Set<int>, v: int, x: int)
    ensures
        lifted(s, v).contains(unshift(x, v)) == s.contains(x),
{
    if s.contains(x) {
        assert((|y: int| unshift(y, v))(x) == unshift(x, v));
    }
    if lifted(s, v).contains(unshift(x, v)) {
        let y = choose|y: int| s.contains(y) && (|t: int| unshift(t, v))(y) == unshift(x, v);
        assert(y == x);
    }
}

/// An element of the lifted set of a set of non-negative numbers is not `v`, and comes from
/// its number without `v`.
proof fn lemma_lifted_member(s: Set<int>, v: int, z: int)
    requires
        lifted(s, v).contains(z),
        forall|y: int| #[trigger] s.contains(y) ==> y >= 0,
    ensures
        z >= 0,
        z != v,
        s.contains(shift(z, v)),
        unshift(shift(z, v), v) == z,
{
    let y = choose|y: int| s.contains(y) && (|t: int| unshift(t, v))(y) == z;
    assert(unshift(y, v) == z);
}

/// The edges of the graph left by eliminating `v`, in the numbering of the full graph.
proof fn lemma_elim_edge(g: Nbrs, v: int, x: int, y: int)
    requires
        0 <= v < g.len(),
        0 <= x < g.len() - 1,
        0 <= y,
    ensures
        elim_view(g, v)[x].contains(y) == (g[unshift(x, v)].contains(unshift(y, v)) || (g[v].contains(
            unshift(x, v),
        ) && g[v].contains(unshift(y, v)) && x != y)),
{
}

/// What a vertex of the smaller graph reaches through `l` it reaches in the full graph
/// through the lifted `l` and `v`.
#[verifier::spinoff_prover]
proof fn lemma_reach_down(g: Nbrs, v: int, l: Set<int>, w: int, x: int)
    requires
        is_graph(g),
        0 <= v < g.len(),
        forall|y: int| #[trigger] l.contains(y) ==> 0 <= y < g.len() - 1,
        0 <= w < g.len() - 1,
        component(elim_view(g, v), l, w).contains(x),
    ensures
        component(g, lifted(l, v).insert(v), unshift(w, v)).contains(unshift(x, v)),
{
    let h = elim_view(g, v);
    let s = lifted(l, v).insert(v);
    let cg = component(g, s, unshift(w, v));
    let t = Set::new(|y: int| 0 <= y < g.len() - 1 && cg.contains(unshift(y, v)));
    lemma_component_start(g, s, unshift(w, v));
    assert(closed_in(h, l, t)) by {
        assert forall|a: int, b: int| t.contains(a) && #[trigger] h[a].contains(b) && l.contains(b) implies t.contains(b) by {
            lemma_elim_edge(g, v, a, b);
            lemma_lifted_contains(l, v, b);
            if g[unshift(a, v)].contains(unshift(b, v)) {
                lemma_component_step(g, s, unshift(w, v), unshift(a, v), unshift(b, v));
            } else {
                assert(g[v].contains(unshift(a, v)));
                assert(g[unshift(a, v)].contains(v));
                lemma_component_step(g, s, unshift(w, v), unshift(a, v), v);
                lemma_component_step(g, s, unshift(w, v), v, unshift(b, v));
            }
        }
    }
    lemma_closed_holds_component(h, l, w, t, x);
}

/// Whether some vertex that `w` reaches through `l` in the smaller graph was a neighbour of
/// `v`.
pub open spec fn reaches_nbr(g: Nbrs, v: int, l: Set<int>, w: int) -> bool {
    exists|x0: int|
        0 <= x0 < g.len() - 1 && component(elim_view(g, v), l, w).contains(x0) && #[trigger] g[v].contains(
            unshift(x0, v),
        )
}

/// What a vertex reaches in the full graph through the lifted `l` and `v` it reaches in
/// the smaller graph through `l`; and it reaches `v` only through a neighbour of `v`.
#[verifier::spinoff_prover]
proof fn lemma_reach_up(g: Nbrs, v: int, l: Set<int>, w: int, z: int)
    requires
        is_graph(g),
        0 <= v < g.len(),
        forall|y: int| #[trigger] l.contains(y) ==> 0 <= y < g.len() - 1,
        0 <= w < g.len() - 1,
        component(g, lifted(l, v).insert(v), unshift(w, v)).contains(z),
    ensures
        z != v ==> 0 <= z < g.len() && component(elim_view(g, v), l, w).contains(shift(z, v)),
        z == v ==> reaches_nbr(g, v, l, w),
{
    let h = elim_view(g, v);
    let s = lifted(l, v).insert(v);
    let ch = component(h, l, w);
    let t = Set::new(
        |y: int| (0 <= y < g.len() && y != v && ch.contains(shift(y, v))) || (y == v && reaches_nbr(g, v, l, w)),
    );
    lemma_component_start(h, l, w);
    lemma_elim_graph(g, v);
    assert(t.contains(unshift(w, v)));
    assert(closed_in(g, s, t)) by {
        assert forall|a: int, y: int| t.contains(a) && #[trigger] g[a].contains(y) && s.contains(y) implies t.contains(y) by {
            if y == v {
                assert(a != v);
                assert(g[v].contains(a));
                assert(unshift(shift(a, v), v) == a);
                assert(g[v].contains(unshift(shift(a, v), v)));
                assert(0 <= shift(a, v) < g.len() - 1);
            } else {
                assert(lifted(l, v).contains(y));
                lemma_lifted_member(l, v, y);
                let b = shift(y, v);
                assert(0 <= y < g.len());
                if a != v {
                    let x = shift(a, v);
                    assert(unshift(x, v) == a);
                    lemma_elim_edge(g, v, x, b);
                    lemma_component_step(h, l, w, x, b);
                } else {
                    let x0 = choose|x0: int|
                        0 <= x0 < g.len() - 1 && ch.contains(x0) && #[trigger] g[v].contains(unshift(x0, v));
                    if x0 != b {
                        lemma_elim_edge(g, v, x0, b);
                        lemma_component_step(h, l, w, x0, b);
                    }
                }
            }
        }
    }
    lemma_closed_holds_component(g, s, unshift(w, v), t, z);
}

/// What a vertex reaches past a set in the smaller graph is, renumbered, what it reaches past
/// the lifted set and `v` in the full graph.
#[verifier::spinoff_prover]
pub proof fn lemma_q_lifted(g: Nbrs, v: int, l: Set<int>, w: int)
    requires
        is_graph(g),
        0 <= v < g.len(),
        forall|y: int| #[trigger] l.contains(y) ==> 0 <= y < g.len() - 1,
        0 <= w < g.len() - 1,
    ensures
        q_set(g, lifted(l, v).insert(v), unshift(w, v)) == lifted(q_set(elim_view(g, v), l, w), v),
        q_set(g, lifted(l, v).insert(v), unshift(w, v)).len() == q_set(elim_view(g, v), l, w).len(),
{
    let h = elim_view(g, v);
    let s = lifted(l, v).insert(v);
    let wg = unshift(w, v);
    let cg = component(g, s, wg);
    let ch = component(h, l, w);
    let qg = q_set(g, s, wg);
    let qh = q_set(h, l, w);
    lemma_elim_graph(g, v);
    assert forall|z: int| #[trigger] qg.contains(z) implies lifted(qh, v).contains(z) by {
        assert(z != v);
        let b = shift(z, v);
        assert(unshift(b, v) == z);
        assert(0 <= b < h.len());
        assert(!l.contains(b)) by {
            lemma_lifted_contains(l, v, b);
        }
        assert(b != w);
        assert(!ch.contains(b)) by {
            if ch.contains(b) {
                lemma_reach_down(g, v, l, w, b);
            }
        }
        let c = choose|c: int| #[trigger] g[z].contains(c) && cg.contains(c);
        lemma_reach_up(g, v, l, w, c);
        if c != v {
            let bc = shift(c, v);
            assert(unshift(bc, v) == c);
            lemma_elim_edge(g, v, b, bc);
            assert(h[b].contains(bc));
        } else {
            let x0 = choose|x0: int|
                0 <= x0 < g.len() - 1 && ch.contains(x0) && #[trigger] g[v].contains(unshift(x0, v));
            assert(g[v].contains(z));
            lemma_elim_edge(g, v, b, x0);
            assert(h[b].contains(x0));
        }
        assert(qh.contains(b));
        lemma_lifted_contains(qh, v, b);
    }
    assert forall|z: int| #[trigger] lifted(qh, v).contains(z) implies qg.contains(z) by {
        lemma_lifted_member(qh, v, z);
        let b = shift(z, v);
        assert(qh.contains(b));
        assert(unshift(b, v) == z);
        assert(!s.contains(z)) by {
            lemma_lifted_contains(l, v, b);
        }
        assert(z != wg);
        assert(!cg.contains(z)) by {
            if cg.contains(z) {
                lemma_reach_up(g, v, l, w, z);
            }
        }
        let c = choose|c: int| #[trigger] h[b].contains(c) && ch.contains(c);
        lemma_component_in_range(h, l, w, c);
        lemma_reach_down(g, v, l, w, c);
        lemma_elim_edge(g, v, b, c);
        if g[unshift(b, v)].contains(unshift(c, v)) {
            assert(g[z].contains(unshift(c, v)) && cg.contains(unshift(c, v)));
        } else {
            assert(g[unshift(c, v)].contains(v));
            lemma_component_step(g, s, wg, unshift(c, v), v);
            assert(g[z].contains(v) && cg.contains(v));
        }
    }
    assert(qg =~= lifted(qh, v));
    lemma_q_bounded(h, l, w);
    lemma_unshift_injective(v);
    vstd::set_lib::lemma_map_size(qh, lifted(qh, v), |x: int| unshift(x, v));
}

/// The entries of a list, renumbered as before vertex `v` was removed.
pub open spec fn lift_list(p: Seq<int>, v: int) -> Seq<int> {
    p.map_values(|x: int| unshift(x, v))
}

proof fn lemma_lift_list_set(p: Seq<int>, v: int)
    ensures
        lift_list(p, v).to_set() == lifted(p.to_set(), v),
{
    let q = lift_list(p, v);
    assert forall|z: int| #[trigger] q.to_set().contains(z) == lifted(p.to_set(), v).contains(z) by {
        if q.to_set().contains(z) {
            let i = choose|i: int| 0 <= i < q.len() && q[i] == z;
            assert(p.contains(p[i]));
            lemma_lifted_contains(p.to_set(), v, p[i]);
        }
        if lifted(p.to_set(), v).contains(z) {
            let y = choose|y: int| p.to_set().contains(y) && (|t: int| unshift(t, v))(y) == z;
            let i = choose|i: int| 0 <= i < p.len() && p[i] == y;
            assert(q[i] == z);
            assert(q.contains(z));
        }
    }
    assert(q.to_set() =~= lifted(p.to_set(), v));
}

proof fn lemma_lifted_union(a: Set<int>, b: Set<int>, v: int)
    ensures
        lifted(a.union(b), v) == lifted(a, v).union(lifted(b, v)),
{
    assert forall|z: int| #[trigger] lifted(a.union(b), v).contains(z) == lifted(a, v).union(lifted(b, v)).contains(z) by {
        if lifted(a.union(b), v).contains(z) {
            let y = choose|y: int| a.union(b).contains(y) && (|t: int| unshift(t, v))(y) == z;
            lemma_lifted_contains(a, v, y);
            lemma_lifted_contains(b, v, y);
        }
        if lifted(a, v).contains(z) {
            let y = choose|y: int| a.contains(y) && (|t: int| unshift(t, v))(y) == z;
            lemma_lifted_contains(a.union(b), v, y);
        }
        if lifted(b, v).contains(z) {
            let y = choose|y: int| b.contains(y) && (|t: int| unshift(t, v))(y) == z;
            lemma_lifted_contains(a.union(b), v, y);
        }
    }
    assert(lifted(a.union(b), v) =~= lifted(a, v).union(lifted(b, v)));
}

/// An ordering of the smaller graph, after `l`, is as wide as its renumbering in the full
/// graph after the lifted `l` and `v`.
#[verifier::spinoff_prover]
pub proof fn lemma_order_width_lifted(g: Nbrs, v: int, l: Set<int>, p: Seq<int>)
    requires
        is_graph(g),
        0 <= v < g.len(),
        forall|y: int| #[trigger] l.contains(y) ==> 0 <= y < g.len() - 1,
        forall|i: int| 0 <= i < p.len() ==> 0 <= #[trigger] p[i] < g.len() - 1,
    ensures
        order_width(elim_view(g, v), l, p) == order_width(g, lifted(l, v).insert(v), lift_list(p, v)),
    decreases p.len(),
{
    if p.len() > 0 {
        let q = p.drop_last();
        lemma_order_width_lifted(g, v, l, q);
        assert(lift_list(p, v).drop_last() =~= lift_list(q, v));
        assert(lift_list(p, v).last() == unshift(p.last(), v));
        let l2 = l.union(q.to_set());
        assert forall|y: int| #[trigger] l2.contains(y) implies 0 <= y < g.len() - 1 by {
            if q.to_set().contains(y) {
                let i = choose|i: int| 0 <= i < q.len() && q[i] == y;
                assert(p[i] == y);
            }
        }
        assert(0 <= p[p.len() - 1] < g.len() - 1);
        lemma_q_lifted(g, v, l2, p.last());
        lemma_lift_list_set(q, v);
        lemma_lifted_union(l, q.to_set(), v);
        assert(lifted(l, v).insert(v).union(lift_list(q, v).to_set()) =~= lifted(l2, v).insert(v));
    }
}

/// With nothing eliminated yet, a vertex reaches exactly its neighbours.
pub proof fn lemma_q_nothing_left(g: Nbrs, v: int)
    requires
        is_graph(g),
        0 <= v < g.len(),
    ensures
        q_set(g, Set::empty(), v).len() == degree(g, v),
{
    let c = component(g, Set::empty(), v);
    assert forall|x: int| #[trigger] c.contains(x) implies x == v by {
        let p = choose|p: Seq<int>| #[trigger] is_walk(g, Set::empty(), p) && p[0] == v && p.last() == x;
        if p.len() > 1 {
            assert(Set::<int>::empty().contains(p[1]));
        }
    }
    lemma_component_start(g, Set::empty(), v);
    assert(q_set(g, Set::empty(), v) =~= g[v]) by {
        assert forall|w: int| #[trigger] q_set(g, Set::empty(), v).contains(w) == g[v].contains(w) by {
            if q_set(g, Set::empty(), v).contains(w) {
                let y = choose|y: int| #[trigger] g[w].contains(y) && c.contains(y);
                assert(y == v);
            }
            if g[v].contains(w) {
                assert(g[w].contains(v));
                assert(c.contains(v));
            }
        }
    }
}

/// The best first vertex of an elimination order is one of the vertices below `k`.
proof fn lemma_best_first_attained(g: Nbrs, k: int) -> (v: int)
    requires
        k >= 1,
    ensures
        0 <= v < k,
        best_first(g, k) == first_cost(g, v),
    decreases k,
{
    if k <= 1 {
        0
    } else {
        let u = lemma_best_first_attained(g, k - 1);
        if first_cost(g, k - 1) < best_first(g, k - 1) {
            k - 1
        } else {
            u
        }
    }
}

/// Renumbering an ordering of the vertices of the smaller graph, and putting `v` first, gives an
/// ordering of the vertices of the full graph.
#[verifier::spinoff_prover]
proof fn lemma_lift_ordering(n: int, v: int, p: Seq<int>)
    requires
        0 <= v < n,
        is_ordering(p, all_vertices(n - 1)),
    ensures
        is_ordering(seq![v] + lift_list(p, v), all_vertices(n)),
        forall|i: int| 0 <= i < p.len() ==> 0 <= #[trigger] p[i] < n - 1,
{
    let q = lift_list(p, v);
    let r = seq![v] + q;
    assert forall|i: int| 0 <= i < p.len() implies 0 <= #[trigger] p[i] < n - 1 by {
        assert(p.contains(p[i]));
        assert(p.to_set().contains(p[i]));
    }
    assert forall|i: int, j: int| 0 <= i < r.len() && 0 <= j < r.len() && i != j implies r[i] != r[j] by {
        if i > 0 && j > 0 {
            assert(r[i] == q[i - 1] && r[j] == q[j - 1]);
            assert(p[i - 1] != p[j - 1]);
        } else if i == 0 {
            assert(r[j] == unshift(p[j - 1], v));
        } else {
            assert(r[i] == unshift(p[i - 1], v));
        }
    }
    assert forall|z: int| #[trigger] r.to_set().contains(z) == all_vertices(n).contains(z) by {
        if r.to_set().contains(z) {
            let i = choose|i: int| 0 <= i < r.len() && r[i] == z;
            if i > 0 {
                assert(r[i] == unshift(p[i - 1], v));
            }
        }
        if all_vertices(n).contains(z) {
            if z == v {
                assert(r[0] == z);
            } else {
                let b = shift(z, v);
                assert(all_vertices(n - 1).contains(b));
                assert(p.to_set().contains(b));
                let i = choose|i: int| 0 <= i < p.len() && p[i] == b;
                assert(r[i + 1] == z);
            }
            assert(r.contains(z));
        }
    }
    assert(r.to_set() =~= all_vertices(n));
}

/// An ordering of the vertices that starts with `v` is, after `v`, the renumbering of an
/// ordering of the vertices of the smaller graph.
#[verifier::spinoff_prover]
proof fn lemma_lower_ordering(n: int, p: Seq<int>) -> (low: Seq<int>)
    requires
        n >= 1,
        is_ordering(p, all_vertices(n)),
    ensures
        0 <= p[0] < n,
        is_ordering(low, all_vertices(n - 1)),
        p == seq![p[0]] + lift_list(low, p[0]),
{
    p.unique_seq_to_set();
    vstd::set_lib::lemma_int_range(0, n);
    assert(all_vertices(n) =~= vstd::set_lib::set_int_range(0, n));
    let v = p[0];
    assert(p.contains(v));
    assert(p.to_set().contains(v));
    let rest = p.drop_first();
    let low = rest.map_values(|z: int| shift(z, v));
    assert forall|i: int| 0 <= i < rest.len() implies #[trigger] rest[i] != v && 0 <= rest[i] < n by {
        assert(rest[i] == p[i + 1]);
        assert(p.contains(p[i + 1]));
        assert(p.to_set().contains(p[i + 1]));
    }
    assert(lift_list(low, v) =~= rest) by {
        assert forall|i: int| 0 <= i < rest.len() implies #[trigger] lift_list(low, v)[i] == rest[i] by {
            assert(rest[i] != v && 0 <= rest[i]);
        }
    }
    assert(p =~= seq![v] + rest);
    assert forall|i: int, j: int| 0 <= i < low.len() && 0 <= j < low.len() && i != j implies low[i] != low[j] by {
        assert(rest[i] == p[i + 1] && rest[j] == p[j + 1]);
        assert(rest[i] != v && rest[j] != v);
    }
    assert forall|b: int| #[trigger] low.to_set().contains(b) == all_vertices(n - 1).contains(b) by {
        if low.to_set().contains(b) {
            let i = choose|i: int| 0 <= i < low.len() && low[i] == b;
            assert(rest[i] != v && 0 <= rest[i] < n);
        }
        if all_vertices(n - 1).contains(b) {
            let z = unshift(b, v);
            assert(all_vertices(n).contains(z));
            assert(p.to_set().contains(z));
            let i = choose|i: int| 0 <= i < p.len() && p[i] == z;
            assert(i != 0);
            assert(low[i - 1] == b);
            assert(low.contains(b));
        }
    }
    assert(low.to_set() =~= all_vertices(n - 1));
    low
}

/// The treewidth, the least width of an elimination order, is the value of the dynamic
/// program over the vertex sets.
#[verifier::spinoff_prover]
pub proof fn lemma_elim_width_is_dp(g: Nbrs)
    requires
        is_graph(g),
        g.len() <= usize::MAX,
    ensures
        elim_width(g) == dp_width(g, all_vertices(g.len() as int)),
    decreases g.len(),
{
    let n = g.len() as int;
    let vs = all_vertices(n);
    vstd::set_lib::lemma_int_range(0, n);
    assert(vs =~= vstd::set_lib::set_int_range(0, n));
    if n == 0 {
        assert(vs =~= Set::<int>::empty());
    } else {
        // The dynamic program's best ordering gives an elimination order no wider.
        let p = lemma_dp_attained(g, vs);
        let low = lemma_lower_ordering(n, p);
        let v = p[0];
        let h = elim_view(g, v);
        lemma_elim_graph(g, v);
        lemma_lift_ordering(n, v, low);
        lemma_elim_width_is_dp(h);
        vstd::set_lib::lemma_int_range(0, n - 1);
        assert(all_vertices(n - 1) =~= vstd::set_lib::set_int_range(0, n - 1));
        lemma_dp_below(h, all_vertices(n - 1), low);
        lemma_order_width_lifted(g, v, Set::empty(), low);
        assert(lifted(Set::<int>::empty(), v) =~= Set::<int>::empty());
        lemma_order_width_concat(g, Set::empty(), seq![v], lift_list(low, v));
        assert(Set::<int>::empty().union(seq![v].to_set()) =~= Set::<int>::empty().insert(v)) by {
            assert(seq![v].contains(v)) by {
                assert(seq![v][0] == v);
            }
        }
        lemma_q_nothing_left(g, v);
        assert(order_width(g, Set::empty(), seq![v]) == degree(g, v)) by {
            assert(seq![v].drop_last() =~= Seq::<int>::empty());
            assert(order_width(g, Set::empty(), seq![v].drop_last()) == 0);
            assert(Set::<int>::empty().union(seq![v].drop_last().to_set()) =~= Set::<int>::empty());
            assert(seq![v].last() == v);
        }
        lemma_elim_step(g, v);
        // The best elimination order gives an ordering no narrower than the dynamic program.
        let v2 = lemma_best_first_attained(g, n);
        let h2 = elim_view(g, v2);
        lemma_elim_graph(g, v2);
        lemma_elim_width_is_dp(h2);
        let low2 = lemma_dp_attained(h2, all_vertices(n - 1));
        lemma_lift_ordering(n, v2, low2);
        lemma_order_width_lifted(g, v2, Set::empty(), low2);
        assert(lifted(Set::<int>::empty(), v2) =~= Set::<int>::empty());
        lemma_order_width_concat(g, Set::empty(), seq![v2], lift_list(low2, v2));
        assert(Set::<int>::empty().union(seq![v2].to_set()) =~= Set::<int>::empty().insert(v2)) by {
            assert(seq![v2].contains(v2)) by {
                assert(seq![v2][0] == v2);
            }
        }
        lemma_q_nothing_left(g, v2);
        assert(order_width(g, Set::empty(), seq![v2]) == degree(g, v2)) by {
            assert(seq![v2].drop_last() =~= Seq::<int>::empty());
            assert(order_width(g, Set::empty(), seq![v2].drop_last()) == 0);
            assert(Set::<int>::empty().union(seq![v2].drop_last().to_set()) =~= Set::<int>::empty());
            assert(seq![v2].last() == v2);
        }
        lemma_dp_below(g, vs, seq![v2] + lift_list(low2, v2));
    }
}

/// The recursion over balanced splits also finds the treewidth, on a graph with at least one
/// vertex.
pub proof fn lemma_elim_width_is_rec(g: Nbrs)
    requires
        is_graph(g),
        1 <= g.len() <= usize::MAX,
    ensures
        elim_width(g) == rec_width(g, Set::empty(), all_vertices(g.len() as int)),
{
    lemma_elim_width_is_dp(g);
    lemma_dp_equals_rec(g);
}

/// Every greedy elimination heuristic gives at least the value of the dynamic program.
pub proof fn lemma_heuristic_above_dp(g: Nbrs, alg: HeuristicAlgorithm)
    requires
        is_graph(g),
        g.len() <= usize::MAX,
    ensures
        dp_width(g, all_vertices(g.len() as int)) <= heuristic_width(g, alg),
{
    lemma_elim_width_is_dp(g);
    lemma_heuristic_upper_bound(g, alg);
}

} // verus!
