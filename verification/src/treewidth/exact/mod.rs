//! Exact treewidth algorithms and the reachability helpers they share.

use std::collections::HashSet;
use itertools::Itertools;
use vstd::prelude::*;
use crate::graph::adjlist;
use crate::graph::bitset;
use crate::graph::bitset::{lemma_small_n, shaped_for};
use crate::utils::bitset::{lists_in_order, BitSet};
use crate::graph::model::{is_graph, Nbrs};
use crate::treewidth::exact::reach::{
    closed_in, component, int_set, lemma_closed_holds_component, lemma_component_in_range,
    lemma_component_same, lemma_component_start, lemma_component_step, q_set, touches,
};

pub mod branch_bound;
pub mod dynamic_prog;
pub mod elimination;
pub mod improved_rec;
pub mod orders;
pub mod reach;
pub mod rec;
pub mod separation;

verus! {

/// The algorithms meant to compute the treewidth exactly. Dynamic programming and the recursion
/// over balanced splits are proved to return it. The recursion over separators is proved never
/// to return less, but it can return more: on the graph `INiBHQcAG` (10 vertices, treewidth 3)
/// its test fails at width 3 and it returns 4. Branch and bound is proved to return a width
/// between the treewidth and the min-fill width.
#[derive(Debug, Clone, Copy, PartialEq, Eq, Structural)]
pub enum ExactAlgorithm {
    /// Dynamic programming over the sets of vertices.
    DynamicProg,
    /// Recursion over balanced splits of the vertex set.
    Recursive,
    /// Recursion over separators, with balanced splits for the parts they leave; at least the
    /// treewidth, not always equal to it.
    ImprovedRec,
    /// Branch and bound over elimination orders.
    BranchBound,
}

/// The unmarked positions of a mark vector.
pub open spec fn unmarked(marks: Seq<bool>) -> Set<int> {
    Set::new(|x: int| 0 <= x < marks.len() && !marks[x])
}

/// The marked positions of a mark vector.
pub open spec fn marked(marks: Seq<bool>) -> Set<int> {
    Set::new(|x: int| 0 <= x < marks.len() && marks[x])
}

proof fn lemma_unmarked_finite(marks: Seq<bool>)
    ensures
        unmarked(marks).finite(),
{
    vstd::set_lib::lemma_int_range(0, marks.len() as int);
    assert(unmarked(marks).subset_of(vstd::set_lib::set_int_range(0, marks.len() as int)));
    vstd::set_lib::lemma_set_subset_finite(vstd::set_lib::set_int_range(0, marks.len() as int), unmarked(marks));
}

/// The component of `vertex` in the subgraph that `subset` induces, with `vertex` added: the
/// vertices that walks from `vertex` through `subset` reach.
pub fn connected_component(vertex: usize, graph: &adjlist::Graph, subset: &HashSet<usize>) -> (r: HashSet<usize>)
    requires
        graph.wf(),
        vertex < graph@.len(),
    ensures
        forall|x: usize| #[trigger] r@.contains(x) == component(graph@, int_set(subset@), vertex as int).contains(x as int),
{
    broadcast use vstd::std_specs::hash::group_hash_axioms;

    let ghost g = graph@;
    let ghost s = int_set(subset@);
    let ghost c = component(g, s, vertex as int);
    let n = graph.n();
    let mut visited: Vec<bool> = Vec::new();
    while visited.len() < n
        invariant
            visited@.len() <= n,
            forall|x: int| 0 <= x < visited@.len() ==> !#[trigger] visited@[x],
        decreases n - visited@.len(),
    {
        visited.push(false);
    }
    visited.set(vertex, true);
    let mut stack: Vec<usize> = Vec::new();
    stack.push(vertex);
    proof {
        graph.lemma_wf();
        lemma_component_start(g, s, vertex as int);
        assert(stack@[0] == vertex);
        assert(stack@.contains(vertex));
    }
    while stack.len() > 0
        invariant
            graph.wf(),
            g == graph@,
            s == int_set(subset@),
            c == component(g, s, vertex as int),
            is_graph(g),
            n == g.len(),
            visited@.len() == n,
            vertex < n,
            visited@[vertex as int],
            forall|x: int| 0 <= x < n && #[trigger] visited@[x] ==> c.contains(x),
            forall|k: int| 0 <= k < stack@.len() ==> #[trigger] stack@[k] < n && visited@[stack@[k] as int],
            stack@.no_duplicates(),
            forall|x: int, y: int|
                0 <= x < n && visited@[x] && !stack@.contains(x as usize) && #[trigger] g[x].contains(y) && s.contains(y)
                    ==> visited@[y],
        decreases unmarked(visited@).len(), stack@.len(),
    {
        let ghost u0 = unmarked(visited@).len();
        let ghost len0 = stack@.len();
        let ghost old_stack = stack@;
        let v = stack.pop().unwrap();
        proof {
            lemma_unmarked_finite(visited@);
            assert(old_stack == stack@.push(v));
            assert(!stack@.contains(v)) by {
                if stack@.contains(v) {
                    let k = choose|k: int| 0 <= k < stack@.len() && stack@[k] == v;
                    assert(old_stack[k] == old_stack[old_stack.len() - 1]);
                }
            }
            assert forall|x: usize| old_stack.contains(x) && x != v implies stack@.contains(x) by {
                let k = choose|k: int| 0 <= k < old_stack.len() && old_stack[k] == x;
                assert(stack@[k] == x);
            }
        }
        let nb = graph.neighbors_ref(v).unwrap();
        let mut k: usize = 0;
        while k < nb.len()
            invariant
                graph.wf(),
                g == graph@,
                s == int_set(subset@),
                c == component(g, s, vertex as int),
                is_graph(g),
                n == g.len(),
                visited@.len() == n,
                vertex < n,
                visited@[vertex as int],
                v < n,
                visited@[v as int],
                nb@ == graph.lists()[v as int],
                k <= nb@.len(),
                !stack@.contains(v),
                forall|x: int| 0 <= x < n && #[trigger] visited@[x] ==> c.contains(x),
                forall|j: int| 0 <= j < stack@.len() ==> #[trigger] stack@[j] < n && visited@[stack@[j] as int],
                stack@.no_duplicates(),
                forall|x: int, y: int|
                    0 <= x < n && x != v && visited@[x] && !stack@.contains(x as usize) && #[trigger] g[x].contains(y)
                        && s.contains(y) ==> visited@[y],
                forall|j: int| 0 <= j < k && s.contains(#[trigger] nb@[j] as int) ==> visited@[nb@[j] as int],
                unmarked(visited@).finite(),
                unmarked(visited@).len() <= u0,
                unmarked(visited@).len() + stack@.len() + 1 == u0 + len0,
            decreases nb@.len() - k,
        {
            let neighbor = nb[k];
            proof {
                graph.lemma_wf();
                assert(g[v as int].contains(neighbor as int));
            }
            if subset.contains(&neighbor) && !visited[neighbor] {
                let ghost before = visited@;
                let ghost stack_before = stack@;
                visited.set(neighbor, true);
                proof {
                    lemma_component_step(g, s, vertex as int, v as int, neighbor as int);
                    assert(unmarked(visited@) =~= unmarked(before).remove(neighbor as int));
                    assert(!stack_before.contains(neighbor));
                }
                stack.push(neighbor);
                proof {
                    assert forall|x: usize| stack_before.contains(x) implies stack@.contains(x) by {
                        let j = choose|j: int| 0 <= j < stack_before.len() && stack_before[j] == x;
                        assert(stack@[j] == x);
                    }
                    assert(stack@[stack@.len() - 1] == neighbor);
                    assert(stack@.contains(neighbor));
                    assert(stack@.contains(v) == stack_before.contains(v));
                }
            }
            k = k + 1;
        }
        proof {
            assert forall|x: int, y: int|
                0 <= x < n && visited@[x] && !stack@.contains(x as usize) && #[trigger] g[x].contains(y) && s.contains(y)
                    implies visited@[y] by {
                if x == v {
                    graph.lemma_wf();
                    assert(graph.lists()[v as int].contains(y as usize));
                    let j = choose|j: int| 0 <= j < nb@.len() && nb@[j] == y as usize;
                }
            }
        }
    }
    proof {
        let vis = marked(visited@);
        assert(closed_in(g, s, vis)) by {
            assert forall|x: int, y: int| vis.contains(x) && #[trigger] g[x].contains(y) && s.contains(y) implies vis.contains(y) by {
                assert(!stack@.contains(x as usize));
            }
        }
        assert forall|x: int| c.contains(x) implies 0 <= x < n && visited@[x] by {
            lemma_closed_holds_component(g, s, vertex as int, vis, x);
        }
    }
    let mut r: HashSet<usize> = HashSet::new();
    let mut x: usize = 0;
    while x < n
        invariant
            x <= n,
            n == g.len(),
            visited@.len() == n,
            forall|y: usize| #[trigger] r@.contains(y) == (y < x && visited@[y as int]),
        decreases n - x,
    {
        if visited[x] {
            r.insert(x);
        }
        x = x + 1;
    }
    proof {
        assert forall|y: usize| #[trigger] r@.contains(y) == c.contains(y as int) by {
            if c.contains(y as int) {
                lemma_component_in_range(g, s, vertex as int, y as int);
            }
        }
    }
    r
}

/// Whether `vertex` has a neighbour in `component`.
pub fn is_reachable_in_subset(vertex: usize, graph: &adjlist::Graph, component: &HashSet<usize>) -> (r: bool)
    requires
        graph.wf(),
        vertex < graph@.len(),
    ensures
        r == touches(graph@, vertex as int, int_set(component@)),
{
    broadcast use vstd::std_specs::hash::group_hash_axioms;

    proof {
        graph.lemma_wf();
    }
    let nb = graph.neighbors_ref(vertex).unwrap();
    let mut k: usize = 0;
    while k < nb.len()
        invariant
            graph.wf(),
            vertex < graph@.len(),
            nb@ == graph.lists()[vertex as int],
            k <= nb@.len(),
            forall|j: int| 0 <= j < k ==> !component@.contains(#[trigger] nb@[j]),
        decreases nb@.len() - k,
    {
        let neighbor = nb[k];
        if component.contains(&neighbor) {
            proof {
                graph.lemma_wf();
                assert(graph@[vertex as int].contains(neighbor as int));
                assert(int_set(component@).contains(neighbor as int));
            }
            return true;
        }
        k = k + 1;
    }
    proof {
        graph.lemma_wf();
        assert forall|y: int| #[trigger] graph@[vertex as int].contains(y) implies !int_set(component@).contains(y) by {
            assert(graph.lists()[vertex as int].contains(y as usize));
            let j = choose|j: int| 0 <= j < nb@.len() && nb@[j] == y as usize;
        }
    }
    false
}

/// The component of `v` through `s` as a set of `usize` describes the same vertices.
proof fn lemma_component_int_set(g: Nbrs, s: Set<int>, v: int, c: Set<usize>)
    requires
        is_graph(g),
        g.len() <= usize::MAX,
        0 <= v < g.len(),
        forall|x: usize| #[trigger] c.contains(x) == component(g, s, v).contains(x as int),
    ensures
        int_set(c) == component(g, s, v),
{
    assert forall|x: int| #[trigger] int_set(c).contains(x) == component(g, s, v).contains(x) by {
        if component(g, s, v).contains(x) {
            lemma_component_in_range(g, s, v, x);
            assert(c.contains(x as usize) == component(g, s, v).contains((x as usize) as int));
        }
        if int_set(c).contains(x) {
            assert(c.contains(x as usize) == component(g, s, v).contains((x as usize) as int));
        }
    }
    assert(int_set(c) =~= component(g, s, v));
}

/// The number of vertices outside `subset`, other than `v`, that are not in the component of `v`
/// through `subset` but are adjacent to it.
pub fn compute_q(v: usize, graph: &adjlist::Graph, subset: &HashSet<usize>) -> (r: usize)
    requires
        graph.wf(),
        v < graph@.len(),
    ensures
        r == q_set(graph@, int_set(subset@), v as int).len(),
{
    broadcast use vstd::std_specs::hash::group_hash_axioms;

    let ghost g = graph@;
    let ghost s = int_set(subset@);
    let ghost qs = q_set(g, s, v as int);
    let ghost pred = |w: int| qs.contains(w);
    let ghost comp = component(g, s, v as int);
    let component = connected_component(v, graph, subset);
    let n = graph.n();
    proof {
        graph.lemma_wf();
        lemma_component_int_set(g, s, v as int, component@);
    }
    let mut num_vertices: usize = 0;
    let mut w: usize = 0;
    while w < n
        invariant
            graph.wf(),
            g == graph@,
            n == g.len(),
            s == int_set(subset@),
            qs == q_set(g, s, v as int),
            pred == (|w: int| qs.contains(w)),
            int_set(component@) == comp,
            comp == crate::treewidth::exact::reach::component(g, s, v as int),
            v < n,
            w <= n,
            num_vertices == crate::utils::bitset::count_below(pred, w as int),
            num_vertices <= w,
        decreases n - w,
    {
        let inside = subset.contains(&w);
        let in_component = component.contains(&w);
        let hit = !inside && w != v && !in_component && is_reachable_in_subset(w, graph, &component);
        proof {
            assert(s.contains(w as int) == inside);
            assert(int_set(component@).contains(w as int) == in_component);
            assert(pred(w as int) == qs.contains(w as int));
            assert(hit == qs.contains(w as int));
        }
        if hit {
            num_vertices = num_vertices + 1;
        }
        w = w + 1;
    }
    proof {
        crate::utils::bitset::lemma_count_below(pred, n as int);
        assert(Set::new(|k: int| 0 <= k < n && pred(k)) =~= qs);
    }
    num_vertices
}

/// The positions below `n` that a bitset does not hold.
pub open spec fn unheld(b: Set<int>, n: int) -> Set<int> {
    Set::new(|x: int| 0 <= x < n && !b.contains(x))
}

proof fn lemma_unheld_finite(b: Set<int>, n: int)
    requires
        n >= 0,
    ensures
        unheld(b, n).finite(),
{
    vstd::set_lib::lemma_int_range(0, n);
    assert(unheld(b, n).subset_of(vstd::set_lib::set_int_range(0, n)));
    vstd::set_lib::lemma_set_subset_finite(vstd::set_lib::set_int_range(0, n), unheld(b, n));
}

/// Whether a bitset can be asked about every vertex of a graph of `n` vertices.
pub open spec fn spans(b: BitSet, n: int) -> bool {
    b.wf() && b.capacity() >= n
}

/// The component of `vertex` in the subgraph that `subset` induces, with `vertex` added, as a
/// bitset over the vertices.
pub fn connected_component_bitset(vertex: usize, graph: &bitset::Graph, subset: &BitSet) -> (r: BitSet)
    requires
        graph.wf(),
        vertex < graph@.len(),
        spans(*subset, graph@.len() as int),
    ensures
        r@ == component(graph@, subset@, vertex as int),
        shaped_for(r, graph@.len() as int),
{
    let ghost g = graph@;
    let ghost s = subset@;
    let ghost c = component(g, s, vertex as int);
    proof {
        graph.lemma_wf();
    }
    let n = graph.n();
    proof {
        graph.lemma_wf();
        graph.lemma_shapes();
        lemma_small_n(n as int);
    }
    let mut visited = BitSet::new(n);
    visited.insert(vertex);
    let mut stack: Vec<usize> = Vec::new();
    stack.push(vertex);
    proof {
        lemma_component_start(g, s, vertex as int);
        assert(stack@[0] == vertex);
        assert(stack@.contains(vertex));
    }
    while stack.len() > 0
        invariant
            graph.wf(),
            g == graph@,
            s == subset@,
            spans(*subset, n as int),
            c == component(g, s, vertex as int),
            is_graph(g),
            n == g.len(),
            n * n <= usize::MAX,
            shaped_for(visited, n as int),
            vertex < n,
            visited@.contains(vertex as int),
            forall|x: int| #[trigger] visited@.contains(x) ==> 0 <= x < n && c.contains(x),
            forall|k: int| 0 <= k < stack@.len() ==> #[trigger] stack@[k] < n && visited@.contains(stack@[k] as int),
            stack@.no_duplicates(),
            forall|x: int, y: int|
                visited@.contains(x) && !stack@.contains(x as usize) && #[trigger] g[x].contains(y) && s.contains(y)
                    ==> visited@.contains(y),
        decreases unheld(visited@, n as int).len(), stack@.len(),
    {
        let ghost u0 = unheld(visited@, n as int).len();
        let ghost len0 = stack@.len();
        let ghost old_stack = stack@;
        let v = stack.pop().unwrap();
        proof {
            lemma_unheld_finite(visited@, n as int);
            assert(old_stack == stack@.push(v));
            assert(!stack@.contains(v)) by {
                if stack@.contains(v) {
                    let k = choose|k: int| 0 <= k < stack@.len() && stack@[k] == v;
                    assert(old_stack[k] == old_stack[old_stack.len() - 1]);
                }
            }
            assert forall|x: usize| old_stack.contains(x) && x != v implies stack@.contains(x) by {
                let k = choose|k: int| 0 <= k < old_stack.len() && old_stack[k] == x;
                assert(stack@[k] == x);
            }
            graph.lemma_wf();
        graph.lemma_shapes();
        }
        let nb = graph.neighbors_ref(v).unwrap().to_vec();
        let mut k: usize = 0;
        while k < nb.len()
            invariant
                graph.wf(),
                g == graph@,
                s == subset@,
                spans(*subset, n as int),
                c == component(g, s, vertex as int),
                is_graph(g),
                n == g.len(),
                n * n <= usize::MAX,
                shaped_for(visited, n as int),
                vertex < n,
                visited@.contains(vertex as int),
                v < n,
                visited@.contains(v as int),
                lists_in_order(nb@, g[v as int]),
                k <= nb@.len(),
                !stack@.contains(v),
                forall|x: int| #[trigger] visited@.contains(x) ==> 0 <= x < n && c.contains(x),
                forall|j: int| 0 <= j < stack@.len() ==> #[trigger] stack@[j] < n && visited@.contains(stack@[j] as int),
                stack@.no_duplicates(),
                forall|x: int, y: int|
                    x != v && visited@.contains(x) && !stack@.contains(x as usize) && #[trigger] g[x].contains(y)
                        && s.contains(y) ==> visited@.contains(y),
                forall|j: int| 0 <= j < k && s.contains(#[trigger] nb@[j] as int) ==> visited@.contains(nb@[j] as int),
                unheld(visited@, n as int).finite(),
                unheld(visited@, n as int).len() <= u0,
                unheld(visited@, n as int).len() + stack@.len() + 1 == u0 + len0,
            decreases nb@.len() - k,
        {
            let neighbor = nb[k];
            proof {
                assert(g[v as int].contains(neighbor as int));
                assert(neighbor < n);
            }
            if subset.contains(neighbor) && !visited.contains(neighbor) {
                let ghost before = visited@;
                let ghost stack_before = stack@;
                visited.insert(neighbor);
                proof {
                    lemma_component_step(g, s, vertex as int, v as int, neighbor as int);
                    assert(unheld(visited@, n as int) =~= unheld(before, n as int).remove(neighbor as int));
                    assert(!stack_before.contains(neighbor));
                }
                stack.push(neighbor);
                proof {
                    assert forall|x: usize| stack_before.contains(x) implies stack@.contains(x) by {
                        let j = choose|j: int| 0 <= j < stack_before.len() && stack_before[j] == x;
                        assert(stack@[j] == x);
                    }
                    assert(stack@[stack@.len() - 1] == neighbor);
                    assert(stack@.contains(neighbor));
                    assert(stack@.contains(v) == stack_before.contains(v));
                }
            }
            k = k + 1;
        }
        proof {
            assert forall|x: int, y: int|
                visited@.contains(x) && !stack@.contains(x as usize) && #[trigger] g[x].contains(y) && s.contains(y)
                    implies visited@.contains(y) by {
                if x == v {
                    let j = choose|j: int| 0 <= j < nb@.len() && nb@[j] == y;
                }
            }
        }
    }
    proof {
        assert(closed_in(g, s, visited@)) by {
            assert forall|x: int, y: int| visited@.contains(x) && #[trigger] g[x].contains(y) && s.contains(y) implies visited@.contains(y) by {
                assert(!stack@.contains(x as usize));
            }
        }
        assert forall|x: int| c.contains(x) implies visited@.contains(x) by {
            lemma_closed_holds_component(g, s, vertex as int, visited@, x);
        }
        assert(visited@ =~= c);
    }
    visited
}

/// Whether `vertex` has a neighbour in `component`.
pub fn is_reachable_in_subset_bitset(vertex: usize, graph: &bitset::Graph, component: &BitSet) -> (r: bool)
    requires
        graph.wf(),
        vertex < graph@.len(),
        spans(*component, graph@.len() as int),
    ensures
        r == touches(graph@, vertex as int, component@),
{
    proof {
        graph.lemma_wf();
        graph.lemma_shapes();
    }
    let nb = graph.neighbors_ref(vertex).unwrap().to_vec();
    let mut k: usize = 0;
    while k < nb.len()
        invariant
            graph.wf(),
            vertex < graph@.len(),
            spans(*component, graph@.len() as int),
            is_graph(graph@),
            lists_in_order(nb@, graph@[vertex as int]),
            k <= nb@.len(),
            forall|j: int| 0 <= j < k ==> !component@.contains(#[trigger] nb@[j] as int),
        decreases nb@.len() - k,
    {
        let neighbor = nb[k];
        proof {
            assert(graph@[vertex as int].contains(neighbor as int));
        }
        if component.contains(neighbor) {
            return true;
        }
        k = k + 1;
    }
    proof {
        assert forall|y: int| #[trigger] graph@[vertex as int].contains(y) implies !component@.contains(y) by {
            let j = choose|j: int| 0 <= j < nb@.len() && nb@[j] == y;
        }
    }
    false
}

/// The number of vertices outside `subset`, other than `v`, that are not in the component of `v`
/// through `subset` but are adjacent to it.
pub fn compute_q_bitset(v: usize, graph: &bitset::Graph, subset: &BitSet) -> (r: usize)
    requires
        graph.wf(),
        v < graph@.len(),
        spans(*subset, graph@.len() as int),
    ensures
        r == q_set(graph@, subset@, v as int).len(),
{
    let ghost g = graph@;
    let ghost s = subset@;
    let ghost qs = q_set(g, s, v as int);
    let ghost pred = |w: int| qs.contains(w);
    let ghost comp = component(g, s, v as int);
    let component = connected_component_bitset(v, graph, subset);
    proof {
        graph.lemma_wf();
    }
    let n = graph.n();
    proof {
        graph.lemma_wf();
        graph.lemma_shapes();
        lemma_small_n(n as int);
    }
    let mut num_vertices: usize = 0;
    let mut w: usize = 0;
    while w < n
        invariant
            graph.wf(),
            g == graph@,
            n == g.len(),
            s == subset@,
            spans(*subset, n as int),
            qs == q_set(g, s, v as int),
            pred == (|w: int| qs.contains(w)),
            component@ == comp,
            shaped_for(component, n as int),
            n * n <= usize::MAX,
            comp == crate::treewidth::exact::reach::component(g, s, v as int),
            v < n,
            w <= n,
            num_vertices == crate::utils::bitset::count_below(pred, w as int),
            num_vertices <= w,
        decreases n - w,
    {
        proof {
            lemma_small_n(n as int);
        }
        let hit = !subset.contains(w) && w != v && !component.contains(w) && is_reachable_in_subset_bitset(
            w,
            graph,
            &component,
        );
        proof {
            assert(pred(w as int) == qs.contains(w as int));
            assert(hit == qs.contains(w as int));
        }
        if hit {
            num_vertices = num_vertices + 1;
        }
        w = w + 1;
    }
    proof {
        crate::utils::bitset::lemma_count_below(pred, n as int);
        assert(Set::new(|k: int| 0 <= k < n && pred(k)) =~= qs);
    }
    num_vertices
}

/// Whether `comps` are the components of the subgraph that `s` induces in `g`: each is the
/// component of a vertex of `s`, no two meet, and together they hold every vertex of `s`.
pub open spec fn components_of(g: Nbrs, s: Set<int>, comps: Seq<Set<int>>) -> bool {
    &&& forall|i: int| 0 <= i < comps.len() ==> is_component_of(g, s, #[trigger] comps[i])
    &&& forall|i: int, j: int| 0 <= i < j < comps.len() ==> (#[trigger] comps[i]).disjoint(#[trigger] comps[j])
    &&& forall|v: int| s.contains(v) ==> exists|i: int| 0 <= i < comps.len() && (#[trigger] comps[i]).contains(v)
}

/// Whether `c` is the component of some vertex of `s` in the subgraph `s` induces.
pub open spec fn is_component_of(g: Nbrs, s: Set<int>, c: Set<int>) -> bool {
    exists|v: int| s.contains(v) && c == component(g, s, v)
}

/// The views of a sequence of bitsets.
pub open spec fn bitset_views(v: Seq<BitSet>) -> Seq<Set<int>> {
    v.map_values(|b: BitSet| b@)
}

/// The components of the subgraph that `subset` induces, one bitset each.
pub fn all_connected_component_bitset(graph: &bitset::Graph, subset: &BitSet) -> (r: Vec<BitSet>)
    requires
        graph.wf(),
        spans(*subset, graph@.len() as int),
        forall|x: int| #[trigger] subset@.contains(x) ==> x < graph@.len(),
    ensures
        components_of(graph@, subset@, bitset_views(r@)),
        forall|i: int| 0 <= i < r@.len() ==> #[trigger] shaped_for(r@[i], graph@.len() as int),
{
    let ghost g = graph@;
    let ghost s = subset@;
    proof {
        graph.lemma_wf();
    }
    let n = graph.n();
    proof {
        lemma_small_n(n as int);
    }
    let mut visited = BitSet::new(n);
    let mut components: Vec<BitSet> = Vec::new();
    let vs = subset.to_vec();
    let mut k: usize = 0;
    while k < vs.len()
        invariant
            graph.wf(),
            g == graph@,
            s == subset@,
            is_graph(g),
            n == g.len(),
            n * n <= usize::MAX,
            spans(*subset, n as int),
            forall|x: int| #[trigger] s.contains(x) ==> x < n,
            lists_in_order(vs@, s),
            k <= vs@.len(),
            shaped_for(visited, n as int),
            forall|i: int| 0 <= i < components@.len() ==> #[trigger] shaped_for(components@[i], n as int),
            forall|x: int| #[trigger] visited@.contains(x) == exists|i: int|
                0 <= i < components@.len() && (#[trigger] components@[i])@.contains(x),
            forall|i: int| 0 <= i < components@.len() ==> exists|v: int|
                s.contains(v) && #[trigger] components@[i]@ == component(g, s, v),
            forall|i: int, j: int|
                0 <= i < j < components@.len() ==> (#[trigger] components@[i])@.disjoint((#[trigger] components@[j])@),
            forall|j: int| 0 <= j < k ==> visited@.contains(#[trigger] vs@[j] as int),
        decreases vs@.len() - k,
    {
        let v = vs[k];
        proof {
            assert(s.contains(v as int));
        }
        if !visited.contains(v) {
            let comp = connected_component_bitset(v, graph, subset);
            let ghost old_comps = components@;
            let ghost old_vis = visited@;
            proof {
                assert forall|i: int| 0 <= i < old_comps.len() implies (#[trigger] old_comps[i])@.disjoint(comp@) by {
                    let u = choose|u: int| s.contains(u) && old_comps[i]@ == component(g, s, u);
                    if exists|x: int| old_comps[i]@.contains(x) && comp@.contains(x) {
                        let x = choose|x: int| old_comps[i]@.contains(x) && comp@.contains(x);
                        lemma_component_same(g, s, u, v as int, x);
                        lemma_component_start(g, s, v as int);
                        assert(old_comps[i]@.contains(v as int));
                        assert(old_vis.contains(v as int));
                    }
                }
            }
            visited = visited.union(&comp);
            components.push(comp);
            proof {
                assert(components@[old_comps.len() as int] == comp);
                assert forall|i: int| 0 <= i < old_comps.len() implies #[trigger] components@[i] == old_comps[i] by {}
                assert forall|x: int| #[trigger] visited@.contains(x) == exists|i: int|
                    0 <= i < components@.len() && (#[trigger] components@[i])@.contains(x) by {
                    if visited@.contains(x) {
                        if comp@.contains(x) {
                            assert(components@[old_comps.len() as int]@.contains(x));
                        } else {
                            assert(old_vis.contains(x));
                            let i = choose|i: int| 0 <= i < old_comps.len() && (#[trigger] old_comps[i])@.contains(x);
                            assert(components@[i]@.contains(x));
                        }
                    }
                    if exists|i: int| 0 <= i < components@.len() && (#[trigger] components@[i])@.contains(x) {
                        let i = choose|i: int| 0 <= i < components@.len() && (#[trigger] components@[i])@.contains(x);
                        if i < old_comps.len() {
                            assert(old_comps[i]@.contains(x));
                            assert(old_vis.contains(x));
                            assert(0 <= x < n);
                        } else {
                            assert(comp@.contains(x));
                            assert(0 <= x < visited.capacity());
                        }
                    }
                }
                assert forall|i: int| 0 <= i < components@.len() implies exists|u: int|
                    s.contains(u) && #[trigger] components@[i]@ == component(g, s, u) by {
                    if i == old_comps.len() {
                        assert(s.contains(v as int) && components@[i]@ == component(g, s, v as int));
                    } else {
                        assert(components@[i] == old_comps[i]);
                    }
                }
                lemma_component_start(g, s, v as int);
            }
        }
        k = k + 1;
    }
    proof {
        let views = bitset_views(components@);
        assert forall|i: int| 0 <= i < views.len() implies is_component_of(g, s, #[trigger] views[i]) by {
            assert(views[i] == components@[i]@);
            let u = choose|u: int| s.contains(u) && #[trigger] components@[i]@ == component(g, s, u);
        }
        assert forall|i: int, j: int| 0 <= i < j < views.len() implies (#[trigger] views[i]).disjoint(#[trigger] views[j]) by {
            assert(views[i] == components@[i]@ && views[j] == components@[j]@);
        }
        assert forall|x: int| s.contains(x) implies exists|i: int| 0 <= i < views.len() && (#[trigger] views[i]).contains(x) by {
            let j = choose|j: int| 0 <= j < vs@.len() && vs@[j] == x;
            assert(visited@.contains(vs@[j] as int));
            let i = choose|i: int| 0 <= i < components@.len() && (#[trigger] components@[i])@.contains(x);
            assert(views[i] == components@[i]@);
        }
        assert(components_of(g, s, views));
    }
    components
}

/// The entries of a list, as a set of integers.
pub open spec fn seq_set(c: Seq<usize>) -> Set<int> {
    Set::new(|x: int| exists|i: int| 0 <= i < c.len() && c[i] == x)
}

/// The elements of a set in increasing order.
pub open spec fn sorted_list(s: Set<int>) -> Seq<usize> {
    choose|v: Seq<usize>| lists_in_order(v, s)
}

/// The `k`-element selections from the entries of `s`, each in the order of `s`, listed in
/// lexicographic order of the positions they take.
pub open spec fn combos(s: Seq<usize>, k: nat) -> Seq<Seq<usize>>
    decreases s.len(),
{
    if k == 0 {
        seq![Seq::<usize>::empty()]
    } else if s.len() < k {
        Seq::empty()
    } else {
        combos(s.drop_first(), (k - 1) as nat).map_values(|c: Seq<usize>| seq![s[0]] + c) + combos(
            s.drop_first(),
            k,
        )
    }
}

/// The views of a sequence of vectors.
pub open spec fn vec_views(v: Seq<Vec<usize>>) -> Seq<Seq<usize>> {
    v.map_values(|c: Vec<usize>| c@)
}

/// `Itertools::combinations` on the entries of `items`, collected: the `k`-element selections of
/// positions in lexicographic order, each given as the entries at those positions in order.
#[verifier::external_body]
pub(crate) fn combinations_of(items: Vec<usize>, k: usize) -> (r: Vec<Vec<usize>>)
    ensures
        vec_views(r@) == combos(items@, k as nat),
{
    items.into_iter().combinations(k).collect()
}

/// A strictly increasing listing of a set is unique.
pub proof fn lemma_sorted_unique(a: Seq<usize>, b: Seq<usize>, s: Set<int>)
    requires
        lists_in_order(a, s),
        lists_in_order(b, s),
    ensures
        a == b,
{
    assert forall|i: int| 0 <= i < a.len() && i < b.len() implies a[i] == b[i] by {
        lemma_sorted_agree(a, b, s, i);
    }
    if a.len() < b.len() {
        let x = b[a.len() as int];
        let j = choose|j: int| 0 <= j < a.len() && a[j] == x as int;
        lemma_sorted_agree(a, b, s, j);
    } else if b.len() < a.len() {
        let x = a[b.len() as int];
        let j = choose|j: int| 0 <= j < b.len() && b[j] == x as int;
        lemma_sorted_agree(a, b, s, j);
    }
    assert(a =~= b);
}

proof fn lemma_sorted_agree(a: Seq<usize>, b: Seq<usize>, s: Set<int>, i: int)
    requires
        lists_in_order(a, s),
        lists_in_order(b, s),
        0 <= i < a.len(),
        i < b.len(),
    ensures
        a[i] == b[i],
    decreases i,
{
    if i > 0 {
        lemma_sorted_agree(a, b, s, i - 1);
    }
    assert forall|j: int| 0 <= j < i implies a[j] == b[j] by {
        lemma_sorted_agree(a, b, s, j);
    }
    if a[i] < b[i] {
        assert(s.contains(a[i] as int));
        let j = choose|j: int| 0 <= j < b.len() && b[j] == a[i] as int;
        if j >= i {
            assert(b[i] <= b[j]);
        } else {
            assert(a[j] == b[j]);
        }
    } else if b[i] < a[i] {
        assert(s.contains(b[i] as int));
        let j = choose|j: int| 0 <= j < a.len() && a[j] == b[i] as int;
        if j >= i {
            assert(a[i] <= a[j]);
        } else {
            assert(a[j] == b[j]);
        }
    }
}

/// Whether the entries of `s` strictly increase.
pub open spec fn increasing(s: Seq<usize>) -> bool {
    forall|a: int, b: int| 0 <= a < b < s.len() ==> s[a] < s[b]
}

/// The entries of a strictly increasing list are as many as its length.
pub proof fn lemma_increasing_set_len(c: Seq<usize>)
    requires
        increasing(c),
    ensures
        seq_set(c).finite(),
        seq_set(c).len() == c.len(),
    decreases c.len(),
{
    if c.len() == 0 {
        assert(seq_set(c) =~= Set::<int>::empty());
    } else {
        let d = c.drop_last();
        assert(increasing(d));
        lemma_increasing_set_len(d);
        assert(seq_set(c) =~= seq_set(d).insert(c.last() as int)) by {
            assert forall|x: int| #[trigger] seq_set(c).contains(x) == seq_set(d).insert(c.last() as int).contains(x) by {
                if seq_set(c).contains(x) {
                    let i = choose|i: int| 0 <= i < c.len() && c[i] == x;
                    if i < c.len() - 1 {
                        assert(d[i] == x);
                    }
                }
                if seq_set(d).contains(x) {
                    let i = choose|i: int| 0 <= i < d.len() && d[i] == x;
                    assert(c[i] == x);
                }
            }
        }
        assert(!seq_set(d).contains(c.last() as int)) by {
            if seq_set(d).contains(c.last() as int) {
                let i = choose|i: int| 0 <= i < d.len() && d[i] == c.last() as int;
                assert(c[i] < c[c.len() - 1]);
            }
        }
    }
}

/// A listing in increasing order has as many entries as the set has elements.
pub proof fn lemma_listing_len(nb: Seq<usize>, s: Set<int>)
    requires
        lists_in_order(nb, s),
    ensures
        s.finite(),
        nb.len() == s.len(),
{
    assert(increasing(nb));
    lemma_increasing_set_len(nb);
    assert(seq_set(nb) =~= s) by {
        assert forall|x: int| #[trigger] seq_set(nb).contains(x) == s.contains(x) by {
            if seq_set(nb).contains(x) {
                let i = choose|i: int| 0 <= i < nb.len() && nb[i] == x;
                assert(s.contains(nb[i] as int));
            }
        }
    }
}

/// There are selections of `k` entries from `s` only when `s` has at least `k` entries.
proof fn lemma_combos_nonempty_len(s: Seq<usize>, k: nat)
    requires
        combos(s, k).len() > 0,
    ensures
        s.len() >= k,
    decreases s.len(),
{
    if k > 0 && s.len() >= k {
    } else if k > 0 {
    }
}

/// Every selection of `k` entries of an increasing list, in increasing order, is one of its
/// selections.
pub proof fn lemma_combos_complete(s: Seq<usize>, k: nat, c: Seq<usize>)
    requires
        increasing(s),
        increasing(c),
        c.len() == k,
        forall|t: int| 0 <= t < c.len() ==> s.contains(#[trigger] c[t]),
    ensures
        combos(s, k).contains(c),
    decreases s.len(),
{
    if k == 0 {
        assert(c =~= Seq::<usize>::empty());
        assert(combos(s, k)[0] == c);
    } else {
        assert(s.contains(c[0]));
        let rest = s.drop_first();
        assert(increasing(rest));
        let c2 = c.drop_first();
        assert(increasing(c2));
        if c[0] == s[0] {
            assert forall|t: int| 0 <= t < c2.len() implies rest.contains(#[trigger] c2[t]) by {
                assert(c2[t] == c[t + 1]);
                assert(s.contains(c[t + 1]));
                let j = choose|j: int| 0 <= j < s.len() && s[j] == c[t + 1];
                assert(c[0] < c[t + 1]);
                assert(j != 0);
                assert(rest[j - 1] == s[j]);
            }
            lemma_combos_complete(rest, (k - 1) as nat, c2);
            let cr = combos(rest, (k - 1) as nat);
            let i = choose|i: int| 0 <= i < cr.len() && cr[i] == c2;
            lemma_combos_nonempty_len(rest, (k - 1) as nat);
            let head = combos(rest, (k - 1) as nat).map_values(|d: Seq<usize>| seq![s[0]] + d);
            assert(combos(s, k) == head + combos(rest, k));
            assert(seq![s[0]] + c2 =~= c);
            assert(combos(s, k)[i] == c);
        } else {
            assert forall|t: int| 0 <= t < c.len() implies rest.contains(#[trigger] c[t]) by {
                assert(s.contains(c[t]));
                let j = choose|j: int| 0 <= j < s.len() && s[j] == c[t];
                let j0 = choose|j: int| 0 <= j < s.len() && s[j] == c[0];
                if t > 0 {
                    assert(c[0] < c[t]);
                }
                if j0 > 0 {
                    assert(s[0] < s[j0]);
                }
                assert(j != 0);
                assert(rest[j - 1] == s[j]);
            }
            lemma_combos_complete(rest, k, c);
            let cr = combos(rest, k);
            let i = choose|i: int| 0 <= i < cr.len() && cr[i] == c;
            lemma_combos_nonempty_len(rest, k);
            let head = combos(rest, (k - 1) as nat).map_values(|d: Seq<usize>| seq![s[0]] + d);
            assert(combos(s, k) == head + combos(rest, k));
            assert(combos(s, k)[head.len() + i] == c);
        }
    }
}

/// Each selection has `k` entries, all taken from `s`, and keeps the order of `s`.
pub proof fn lemma_combos_props(s: Seq<usize>, k: nat, i: int)
    requires
        0 <= i < combos(s, k).len(),
    ensures
        combos(s, k)[i].len() == k,
        forall|t: int| 0 <= t < k ==> s.contains(#[trigger] combos(s, k)[i][t]),
        increasing(s) ==> increasing(combos(s, k)[i]),
    decreases s.len(),
{
    if k == 0 {
    } else if s.len() < k {
    } else {
        let rest = s.drop_first();
        let first = combos(rest, (k - 1) as nat);
        let second = combos(rest, k);
        let head = first.map_values(|c: Seq<usize>| seq![s[0]] + c);
        assert(combos(s, k) == head + second);
        if increasing(s) {
            assert(increasing(rest));
        }
        if i < first.len() {
            lemma_combos_props(rest, (k - 1) as nat, i);
            let c = first[i];
            assert(combos(s, k)[i] == seq![s[0]] + c);
            assert forall|t: int| 0 <= t < k implies s.contains(#[trigger] combos(s, k)[i][t]) by {
                if t == 0 {
                    assert(s[0] == combos(s, k)[i][t]);
                } else {
                    assert(combos(s, k)[i][t] == c[t - 1]);
                    assert(rest.contains(c[t - 1]));
                    let j = choose|j: int| 0 <= j < rest.len() && rest[j] == c[t - 1];
                    assert(s[j + 1] == rest[j]);
                }
            }
            if increasing(s) {
                assert forall|a: int, b: int| 0 <= a < b < combos(s, k)[i].len() implies combos(s, k)[i][a] < combos(s, k)[i][b] by {
                    if a == 0 {
                        assert(rest.contains(c[b - 1]));
                        let j = choose|j: int| 0 <= j < rest.len() && rest[j] == c[b - 1];
                        assert(s[j + 1] == rest[j]);
                        assert(s[0] < s[j + 1]);
                    } else {
                        assert(c[a - 1] < c[b - 1]);
                    }
                }
            }
        } else {
            lemma_combos_props(rest, k, i - first.len());
            let c = second[i - first.len()];
            assert(combos(s, k)[i] == c);
            assert forall|t: int| 0 <= t < k implies s.contains(#[trigger] combos(s, k)[i][t]) by {
                assert(rest.contains(c[t]));
                let j = choose|j: int| 0 <= j < rest.len() && rest[j] == c[t];
                assert(s[j + 1] == rest[j]);
            }
        }
    }
}

/// The `k`-element subsets of the elements of `subset`, as bitsets shaped for `n` vertices, in
/// the order `Itertools::combinations` gives them for the elements listed in increasing order.
pub fn combinations_bitset(subset: &BitSet, n: usize, k: usize) -> (r: Vec<BitSet>)
    requires
        subset.wf(),
        n * n <= usize::MAX,
        forall|x: int| #[trigger] subset@.contains(x) ==> x < n,
    ensures
        lists_in_order(sorted_list(subset@), subset@),
        r@.len() == combos(sorted_list(subset@), k as nat).len(),
        forall|i: int| 0 <= i < r@.len() ==> (#[trigger] r@[i])@ == seq_set(combos(sorted_list(subset@), k as nat)[i]),
        forall|i: int| 0 <= i < r@.len() ==> #[trigger] shaped_for(r@[i], n as int),
{
    let items = subset.to_vec();
    proof {
        lemma_sorted_unique(items@, sorted_list(subset@), subset@);
    }
    let combos_list = combinations_of(items, k);
    let ghost cs = combos(sorted_list(subset@), k as nat);
    proof {
        assert(vec_views(combos_list@).len() == combos_list@.len());
    }
    let mut r: Vec<BitSet> = Vec::new();
    let mut i: usize = 0;
    while i < combos_list.len()
        invariant
            n * n <= usize::MAX,
            vec_views(combos_list@) == cs,
            forall|x: int| #[trigger] subset@.contains(x) ==> x < n,
            lists_in_order(sorted_list(subset@), subset@),
            i <= combos_list@.len(),
            r@.len() == i,
            cs == combos(sorted_list(subset@), k as nat),
            cs.len() == combos_list@.len(),
            forall|j: int| 0 <= j < i ==> (#[trigger] r@[j])@ == seq_set(cs[j]),
            forall|j: int| 0 <= j < i ==> #[trigger] shaped_for(r@[j], n as int),
        decreases combos_list@.len() - i,
    {
        let combo = &combos_list[i];
        proof {
            assert(vec_views(combos_list@).len() == combos_list@.len());
            assert(vec_views(combos_list@)[i as int] == combos_list@[i as int]@);
            assert(cs[i as int] == combo@);
            lemma_small_n(n as int);
            lemma_combos_props(sorted_list(subset@), k as nat, i as int);
            assert forall|t: int| 0 <= t < combo@.len() implies #[trigger] combo@[t] < n by {
                assert(sorted_list(subset@).contains(combo@[t]));
                let j = choose|j: int| 0 <= j < sorted_list(subset@).len() && sorted_list(subset@)[j] == combo@[t];
                assert(subset@.contains(sorted_list(subset@)[j] as int));
            }
        }
        let mut bs = BitSet::new(n);
        let mut j: usize = 0;
        while j < combo.len()
            invariant
                n * n <= usize::MAX,
                shaped_for(bs, n as int),
                j <= combo@.len(),
                forall|x: int| #[trigger] bs@.contains(x) == exists|t: int| 0 <= t < j && combo@[t] == x,
                forall|t: int| 0 <= t < combo@.len() ==> #[trigger] combo@[t] < n,
            decreases combo@.len() - j,
        {
            bs.insert(combo[j]);
            proof {
                assert forall|x: int| #[trigger] bs@.contains(x) == exists|t: int| 0 <= t < j + 1 && combo@[t] == x by {
                    if x == combo@[j as int] {
                        assert(combo@[j as int] == x);
                    }
                }
            }
            j = j + 1;
        }
        r.push(bs);
        proof {
            assert(bs@ =~= seq_set(combo@));
        }
        i = i + 1;
    }
    r
}

} // verus!
