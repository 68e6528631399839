//! Reachability inside a vertex set: walks, the component of a vertex, and the vertices outside
//! the set that a component touches.

use vstd::prelude::*;
use crate::graph::model::{is_graph, Nbrs};

verus! {

/// The elements of a set of `usize` as integers.
pub open spec fn int_set(s: Set<usize>) -> Set<int> {
    Set::new(|x: int| 0 <= x <= usize::MAX && s.contains(x as usize))
}

/// Whether `p` is a walk in `g` all of whose vertices after the first lie in `s`.
pub open spec fn is_walk(g: Nbrs, s: Set<int>, p: Seq<int>) -> bool {
    &&& p.len() >= 1
    &&& forall|i: int| 0 <= i < p.len() - 1 ==> #[trigger] g[p[i]].contains(p[i + 1])
    &&& forall|i: int| 1 <= i < p.len() ==> s.contains(#[trigger] p[i])
}

/// The vertices that `v` reaches by walks through `s`: `v` itself, and every vertex of `s`
/// joined to it by a path inside `s`.
pub open spec fn component(g: Nbrs, s: Set<int>, v: int) -> Set<int> {
    Set::new(|x: int| exists|p: Seq<int>| #[trigger] is_walk(g, s, p) && p[0] == v && p.last() == x)
}

/// Whether `vis` contains every vertex of `s` adjacent to one of its vertices.
pub open spec fn closed_in(g: Nbrs, s: Set<int>, vis: Set<int>) -> bool {
    forall|x: int, y: int| vis.contains(x) && #[trigger] g[x].contains(y) && s.contains(y) ==> vis.contains(y)
}

/// The vertices outside `s` and other than `v` that are not in the component of `v` but are
/// adjacent to it.
pub open spec fn q_set(g: Nbrs, s: Set<int>, v: int) -> Set<int> {
    Set::new(
        |w: int|
            0 <= w < g.len() && !s.contains(w) && w != v && !component(g, s, v).contains(w)
                && touches(g, w, component(g, s, v)),
    )
}

/// Whether `w` has a neighbour in `c`.
pub open spec fn touches(g: Nbrs, w: int, c: Set<int>) -> bool {
    exists|y: int| #[trigger] g[w].contains(y) && c.contains(y)
}

/// A walk grows by a step to a neighbour in `s`.
pub proof fn lemma_walk_push(g: Nbrs, s: Set<int>, p: Seq<int>, w: int)
    requires
        is_walk(g, s, p),
        g[p.last()].contains(w),
        s.contains(w),
    ensures
        is_walk(g, s, p.push(w)),
        p.push(w)[0] == p[0],
        p.push(w).last() == w,
{
    let q = p.push(w);
    assert forall|i: int| 0 <= i < q.len() - 1 implies #[trigger] g[q[i]].contains(q[i + 1]) by {
        if i < p.len() - 1 {
            assert(q[i] == p[i] && q[i + 1] == p[i + 1]);
        }
    }
    assert forall|i: int| 1 <= i < q.len() implies s.contains(#[trigger] q[i]) by {
        if i < p.len() {
            assert(q[i] == p[i]);
        }
    }
}

/// Every vertex is in its own component.
pub proof fn lemma_component_start(g: Nbrs, s: Set<int>, v: int)
    ensures
        component(g, s, v).contains(v),
{
    let p = seq![v];
    assert(is_walk(g, s, p));
}

/// A neighbour in `s` of a vertex of the component is in the component.
pub proof fn lemma_component_step(g: Nbrs, s: Set<int>, v: int, x: int, w: int)
    requires
        component(g, s, v).contains(x),
        g[x].contains(w),
        s.contains(w),
    ensures
        component(g, s, v).contains(w),
{
    let p = choose|p: Seq<int>| #[trigger] is_walk(g, s, p) && p[0] == v && p.last() == x;
    lemma_walk_push(g, s, p, w);
}

/// A set that holds `v` and is closed under steps into `s` holds the whole component of `v`.
pub proof fn lemma_closed_holds_component(g: Nbrs, s: Set<int>, v: int, vis: Set<int>, x: int)
    requires
        vis.contains(v),
        closed_in(g, s, vis),
        component(g, s, v).contains(x),
    ensures
        vis.contains(x),
{
    let p = choose|p: Seq<int>| #[trigger] is_walk(g, s, p) && p[0] == v && p.last() == x;
    lemma_walk_in_closed(g, s, vis, p);
}

proof fn lemma_walk_in_closed(g: Nbrs, s: Set<int>, vis: Set<int>, p: Seq<int>)
    requires
        is_walk(g, s, p),
        vis.contains(p[0]),
        closed_in(g, s, vis),
    ensures
        vis.contains(p.last()),
    decreases p.len(),
{
    if p.len() > 1 {
        let q = p.drop_last();
        assert(is_walk(g, s, q)) by {
            assert forall|i: int| 0 <= i < q.len() - 1 implies #[trigger] g[q[i]].contains(q[i + 1]) by {
                assert(q[i] == p[i] && q[i + 1] == p[i + 1]);
                assert(g[p[i]].contains(p[i + 1]));
            }
            assert forall|i: int| 1 <= i < q.len() implies s.contains(#[trigger] q[i]) by {
                assert(q[i] == p[i]);
            }
        }
        lemma_walk_in_closed(g, s, vis, q);
        let k = p.len() - 2;
        assert(g[p[k]].contains(p[k + 1]));
        assert(s.contains(p[k + 1]));
    }
}

/// In a graph, the component of a vertex holds only vertices.
pub proof fn lemma_component_in_range(g: Nbrs, s: Set<int>, v: int, x: int)
    requires
        is_graph(g),
        0 <= v < g.len(),
        component(g, s, v).contains(x),
    ensures
        0 <= x < g.len(),
{
    let p = choose|p: Seq<int>| #[trigger] is_walk(g, s, p) && p[0] == v && p.last() == x;
    lemma_walk_prefix_in_range(g, s, p, p.len() - 1);
}

proof fn lemma_walk_prefix_in_range(g: Nbrs, s: Set<int>, p: Seq<int>, k: int)
    requires
        is_graph(g),
        is_walk(g, s, p),
        0 <= p[0] < g.len(),
        0 <= k < p.len(),
    ensures
        0 <= p[k] < g.len(),
    decreases k,
{
    if k > 0 {
        lemma_walk_prefix_in_range(g, s, p, k - 1);
        let i = k - 1;
        assert(g[p[i]].contains(p[i + 1]));
        assert(i + 1 == k);
    }
}

/// Two walks that meet end to start join into one.
proof fn lemma_walk_concat(g: Nbrs, s: Set<int>, p: Seq<int>, q: Seq<int>)
    requires
        is_walk(g, s, p),
        is_walk(g, s, q),
        p.last() == q[0],
    ensures
        is_walk(g, s, p + q.skip(1)),
        (p + q.skip(1))[0] == p[0],
        (p + q.skip(1)).last() == q.last(),
{
    let r = p + q.skip(1);
    assert forall|i: int| 0 <= i < r.len() - 1 implies #[trigger] g[r[i]].contains(r[i + 1]) by {
        if i < p.len() - 1 {
            assert(r[i] == p[i] && r[i + 1] == p[i + 1]);
        } else {
            let j = i - (p.len() - 1);
            assert(r[i] == q[j]);
            assert(r[i + 1] == q[j + 1]);
        }
    }
    assert forall|i: int| 1 <= i < r.len() implies s.contains(#[trigger] r[i]) by {
        if i < p.len() {
            assert(r[i] == p[i]);
        } else {
            assert(r[i] == q[i - p.len() + 1]);
        }
    }
    if q.len() > 1 {
        assert(r.last() == q[q.len() - 1]);
    }
}

/// A walk that starts in `s` can be walked backwards.
proof fn lemma_walk_reverse(g: Nbrs, s: Set<int>, p: Seq<int>)
    requires
        is_graph(g),
        is_walk(g, s, p),
        s.contains(p[0]),
        0 <= p[0] < g.len(),
    ensures
        is_walk(g, s, p.reverse()),
        p.reverse()[0] == p.last(),
        p.reverse().last() == p[0],
{
    let r = p.reverse();
    let n = p.len();
    assert forall|k: int| 0 <= k < n implies 0 <= #[trigger] p[k] < g.len() by {
        lemma_walk_prefix_in_range(g, s, p, k);
    }
    assert forall|i: int| 0 <= i < r.len() - 1 implies #[trigger] g[r[i]].contains(r[i + 1]) by {
        let j = n - 2 - i;
        assert(r[i] == p[j + 1]);
        assert(r[i + 1] == p[j]);
        assert(g[p[j]].contains(p[j + 1]));
        assert(0 <= p[j] < g.len());
    }
    assert forall|i: int| 1 <= i < r.len() implies s.contains(#[trigger] r[i]) by {
        assert(r[i] == p[n - 1 - i]);
    }
}

/// Two vertices of `s` whose components meet have the same component.
pub proof fn lemma_component_same(g: Nbrs, s: Set<int>, u: int, w: int, x: int)
    requires
        is_graph(g),
        s.contains(u),
        s.contains(w),
        0 <= u < g.len(),
        0 <= w < g.len(),
        component(g, s, u).contains(x),
        component(g, s, w).contains(x),
    ensures
        component(g, s, u) == component(g, s, w),
{
    lemma_component_reaches(g, s, u, w, x);
    lemma_component_reaches(g, s, w, u, x);
    assert forall|y: int| #[trigger] component(g, s, u).contains(y) implies component(g, s, w).contains(y) by {
        lemma_component_trans(g, s, w, u, y);
    }
    assert forall|y: int| #[trigger] component(g, s, w).contains(y) implies component(g, s, u).contains(y) by {
        lemma_component_trans(g, s, u, w, y);
    }
    assert(component(g, s, u) =~= component(g, s, w));
}

/// If the components of `u` and of `w` (in `s`) share `x`, then `w` is in the component of `u`.
proof fn lemma_component_reaches(g: Nbrs, s: Set<int>, u: int, w: int, x: int)
    requires
        is_graph(g),
        s.contains(w),
        0 <= w < g.len(),
        component(g, s, u).contains(x),
        component(g, s, w).contains(x),
    ensures
        component(g, s, u).contains(w),
{
    let p = choose|p: Seq<int>| #[trigger] is_walk(g, s, p) && p[0] == u && p.last() == x;
    let q = choose|q: Seq<int>| #[trigger] is_walk(g, s, q) && q[0] == w && q.last() == x;
    lemma_walk_reverse(g, s, q);
    lemma_walk_concat(g, s, p, q.reverse());
    assert(is_walk(g, s, p + q.reverse().skip(1)));
}

/// A vertex of the component of `u` reaches, through `s`, what the component of `w` holds when
/// `w` is in the component of `u`.
proof fn lemma_component_trans(g: Nbrs, s: Set<int>, u: int, w: int, y: int)
    requires
        component(g, s, u).contains(w),
        component(g, s, w).contains(y),
    ensures
        component(g, s, u).contains(y),
{
    let p = choose|p: Seq<int>| #[trigger] is_walk(g, s, p) && p[0] == u && p.last() == w;
    let q = choose|q: Seq<int>| #[trigger] is_walk(g, s, q) && q[0] == w && q.last() == y;
    lemma_walk_concat(g, s, p, q);
    assert(is_walk(g, s, p + q.skip(1)));
}

} // verus!
