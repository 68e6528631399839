//! Recursion over balanced splits.
//!
//! `TW(L, S)` for disjoint vertex sets `L` (already eliminated) and `S` (to eliminate): for one
//! vertex `v`, the number of vertices outside `L` and `v` that `v` reaches through `L`;
//! otherwise the best, over the subsets `A` of `S` with half its elements, of the larger of
//! `TW(L, A)` and `TW(L ∪ A, S - A)`. The algorithm returns `TW(∅, V)`.

use vstd::prelude::*;
use crate::graph::Graph;
use crate::graph::bitset::{lemma_shaped_same_variant, lemma_small_n, shaped_for};
use crate::graph::model::Nbrs;
use crate::treewidth::exact::dynamic_prog::all_vertices;
use crate::treewidth::exact::reach::{int_set, q_set};
use crate::treewidth::exact::{
    combinations_bitset, combos, compute_q, compute_q_bitset, increasing, lemma_combos_props,
    lemma_increasing_set_len,
    seq_set, sorted_list, spans,
};
use crate::utils::bitset::{lists_in_order, BitSet};

verus! {

/// The element of a one-element set.
pub open spec fn single(s: Set<int>) -> int {
    choose|v: int| s.contains(v)
}

/// `TW(L, S)`.
pub open spec fn rec_width(g: Nbrs, left: Set<int>, s: Set<int>) -> nat
    decreases s.len(), 1nat, 0int,
    when s.finite()
{
    if s.len() == 1 {
        q_set(g, left, single(s)).len()
    } else {
        let cs = combos(sorted_list(s), s.len() / 2);
        rec_best(g, left, s, cs, cs.len() as int)
    }
}

/// The best over the first `i` splits listed in `cs`; `usize::MAX` when there is none.
pub open spec fn rec_best(g: Nbrs, left: Set<int>, s: Set<int>, cs: Seq<Seq<usize>>, i: int) -> nat
    decreases s.len(), 0nat, i,
    when s.finite()
{
    if i <= 0 {
        usize::MAX as nat
    } else {
        let rest = rec_best(g, left, s, cs, i - 1);
        let a = seq_set(cs[i - 1]);
        if a.finite() && a.len() < s.len() && s.difference(a).len() < s.len() {
            let tw1 = rec_width(g, left, a);
            let tw2 = rec_width(g, left.union(a), s.difference(a));
            let here = if tw1 < tw2 {
                tw2
            } else {
                tw1
            };
            if here < rest {
                here
            } else {
                rest
            }
        } else {
            rest
        }
    }
}

/// The number of vertices outside `left`, other than `v`, that `v` reaches through `left`.
fn q_with(graph: &Graph, v: usize, left: &BitSet) -> (r: usize)
    requires
        graph.wf(),
        v < graph@.len(),
        spans(*left, graph@.len() as int),
    ensures
        r == q_set(graph@, left@, v as int).len(),
{
    match graph {
        Graph::AdjList(g) => {
            let hs = left.to_hashset();
            proof {
                left.lemma_view_finite();
                assert(int_set(hs@) =~= left@) by {
                    assert forall|x: int| #[trigger] int_set(hs@).contains(x) == left@.contains(x) by {
                        if left@.contains(x) {
                            assert(hs@.contains(x as usize) == left@.contains((x as usize) as int));
                        }
                    }
                }
            }
            compute_q(v, g, &hs)
        },
        Graph::BitSet(g) => {
            proof {
                g.lemma_wf();
            }
            compute_q_bitset(v, g, left)
        },
    }
}

/// The number of vertices.
pub(crate) fn vertex_count(graph: &Graph) -> (r: usize)
    requires
        graph.wf(),
    ensures
        r == graph@.len(),
        r * r <= usize::MAX,
{
    match graph {
        Graph::AdjList(g) => {
            proof {
                g.lemma_wf();
            }
            g.n()
        },
        Graph::BitSet(g) => {
            proof {
                g.lemma_wf();
            }
            g.n()
        },
    }
}

/// `TW(left, vertices)`.
pub(crate) fn treewidth_recursive(graph: &Graph, left: &BitSet, vertices: BitSet) -> (r: usize)
    requires
        graph.wf(),
        shaped_for(*left, graph@.len() as int),
        shaped_for(vertices, graph@.len() as int),
        vertices@.len() >= 1,
        forall|x: int| #[trigger] vertices@.contains(x) ==> x < graph@.len(),
    ensures
        r == rec_width(graph@, left@, vertices@),
    decreases vertices@.len(),
{
    let ghost g = graph@;
    let ghost s = vertices@;
    proof {
        vertices.lemma_view_finite();
    }
    let n = vertex_count(graph);
    if vertices.has_one_bit() {
        let v = vertices.first_bit().unwrap();
        proof {
            assert(s.contains(single(s)));
            if single(s) != v as int {
                assert(s.remove(v as int).contains(single(s)));
                vstd::set_lib::lemma_set_empty_equivalency_len(s.remove(v as int));
            }
            assert(single(s) == v as int);
        }
        return q_with(graph, v, left);
    }
    let half = vertices.len() / 2;
    let subsets = combinations_bitset(&vertices, n, half);
    let ghost cs = combos(sorted_list(s), half as nat);
    let mut opt: usize = usize::MAX;
    let mut i: usize = 0;
    while i < subsets.len()
        invariant
            graph.wf(),
            g == graph@,
            n == g.len(),
            n * n <= usize::MAX,
            s == vertices@,
            s.finite(),
            s.len() >= 2,
            half == s.len() / 2,
            shaped_for(*left, n as int),
            shaped_for(vertices, n as int),
            forall|x: int| #[trigger] s.contains(x) ==> x < n,
            lists_in_order(sorted_list(s), s),
            cs == combos(sorted_list(s), half as nat),
            subsets@.len() == cs.len(),
            forall|j: int| 0 <= j < subsets@.len() ==> (#[trigger] subsets@[j])@ == seq_set(cs[j]),
            forall|j: int| 0 <= j < subsets@.len() ==> #[trigger] shaped_for(subsets@[j], n as int),
            i <= subsets@.len(),
            opt == rec_best(g, left@, s, cs, i as int),
        decreases subsets@.len() - i,
    {
        let subset = &subsets[i];
        let ghost a = seq_set(cs[i as int]);
        proof {
            lemma_combos_props(sorted_list(s), half as nat, i as int);
            assert(increasing(sorted_list(s)));
            lemma_increasing_set_len(cs[i as int]);
            assert(a.subset_of(s)) by {
                assert forall|x: int| a.contains(x) implies s.contains(x) by {
                    let t = choose|t: int| 0 <= t < cs[i as int].len() && cs[i as int][t] == x;
                    assert(sorted_list(s).contains(cs[i as int][t]));
                    let j = choose|j: int| 0 <= j < sorted_list(s).len() && sorted_list(s)[j] == cs[i as int][t];
                }
            }
            assert(s.intersect(a) =~= a);
            vstd::set_lib::lemma_set_difference_len(s, a);
            assert(subset@ == a);
        }
        proof {
            lemma_shaped_same_variant(vertices, *subset, n as int);
            lemma_shaped_same_variant(*left, *subset, n as int);
        }
        let complement = vertices.difference(subset);
        let new_left = left.union(subset);
        proof {
            assert(complement@ =~= s.difference(a));
            assert(new_left@ =~= left@.union(a));
            lemma_small_n(n as int);
        }
        let tw1 = treewidth_recursive(graph, left, subset.duplicate());
        let tw2 = treewidth_recursive(graph, &new_left, complement);
        let curr_opt = if tw1 < tw2 {
            tw2
        } else {
            tw1
        };
        if curr_opt < opt {
            opt = curr_opt;
        }
        i = i + 1;
    }
    opt
}

/// `TW(∅, V)`, by recursion over balanced splits (for a graph with at least one vertex).
pub fn treewidth(graph: &Graph) -> (r: usize)
    requires
        graph.wf(),
        graph@.len() >= 1,
    ensures
        r == rec_width(graph@, Set::empty(), all_vertices(graph@.len() as int)),
{
    let n = vertex_count(graph);
    proof {
        lemma_small_n(n as int);
    }
    let vertices = BitSet::full(n);
    let left = BitSet::new(n);
    proof {
        assert(vertices@ =~= all_vertices(n as int));
        vstd::set_lib::lemma_int_range(0, n as int);
        assert(all_vertices(n as int) =~= vstd::set_lib::set_int_range(0, n as int));
    }
    treewidth_recursive(graph, &left, vertices)
}

} // verus!
