//! Dynamic programming over vertex sets.
//!
//! For a set `S` of vertices, `TW(S)` is the smallest, over the vertices `v` of `S`, of the larger
//! of `TW(S - v)` and the number of vertices outside `S` that `v` reaches through `S - v`; the
//! empty set has `TW(∅) = 0`, and the algorithm returns `TW` of the whole vertex set. Sets are
//! the bit patterns below `2^n`, and every set is computed after all its subsets.

use vstd::prelude::*;
use crate::graph::Graph;
use crate::graph::model::Nbrs;
use crate::treewidth::exact::reach::{int_set, q_set};
use crate::treewidth::exact::rec::vertex_count;
use crate::treewidth::exact::{compute_q, compute_q_bitset, spans};
use crate::utils::bitset::{bit64, lemma_bit64_clear_single, lemma_bit64_low_mask, word64_set, BitSet};

verus! {

/// The vertices `0..n`.
pub open spec fn all_vertices(n: int) -> Set<int> {
    Set::new(|v: int| 0 <= v < n)
}

/// `TW(S)`: zero for the empty set, otherwise the best over the vertices of `S` of eliminating
/// that vertex last.
pub open spec fn dp_width(g: Nbrs, s: Set<int>) -> nat
    decreases s.len(), 1nat, 0int,
    when s.finite()
{
    if s.len() == 0 {
        0
    } else {
        dp_best(g, s, g.len() as int)
    }
}

/// The best, over the vertices `v < k` of `S`, of the larger of `TW(S - v)` and the number of
/// vertices outside `S - v` that `v` reaches through `S - v`; `usize::MAX` when there is none.
pub open spec fn dp_best(g: Nbrs, s: Set<int>, k: int) -> nat
    decreases s.len(), 0nat, k,
    when s.finite()
{
    if k <= 0 {
        usize::MAX as nat
    } else {
        let rest = dp_best(g, s, k - 1);
        if s.contains(k - 1) {
            let sub = s.remove(k - 1);
            let tw = dp_width(g, sub);
            let q = q_set(g, sub, k - 1).len();
            let val = if tw < q {
                q
            } else {
                tw
            };
            if val < rest {
                val
            } else {
                rest
            }
        } else {
            rest
        }
    }
}

proof fn lemma_clear_below(x: u64, p: u64)
    by (bit_vector)
    requires
        p < 64,
        bit64(x, p),
    ensures
        x & !(1u64 << p) < x,
{
}

proof fn lemma_word64_finite(x: u64)
    ensures
        word64_set(x).finite(),
{
    vstd::set_lib::lemma_int_range(0, 64);
    assert(word64_set(x).subset_of(vstd::set_lib::set_int_range(0, 64)));
    vstd::set_lib::lemma_set_subset_finite(vstd::set_lib::set_int_range(0, 64), word64_set(x));
}

/// The number of vertices outside the set with bit pattern `sub`, other than `v`, that `v`
/// reaches through it.
fn q_of(graph: &Graph, v: usize, sub: u64) -> (r: usize)
    requires
        graph.wf(),
        v < graph@.len(),
        graph@.len() <= 64,
    ensures
        r == q_set(graph@, word64_set(sub), v as int).len(),
{
    let b = BitSet::from_u64(sub);
    proof {
        assert(b@ =~= word64_set(sub));
    }
    match graph {
        Graph::AdjList(g) => {
            let hs = b.to_hashset();
            proof {
                assert(int_set(hs@) =~= word64_set(sub)) by {
                    assert forall|x: int| #[trigger] int_set(hs@).contains(x) == word64_set(sub).contains(x) by {
                        if word64_set(sub).contains(x) {
                            assert(hs@.contains(x as usize) == b@.contains((x as usize) as int));
                        }
                    }
                }
            }
            compute_q(v, g, &hs)
        },
        Graph::BitSet(g) => {
            proof {
                g.lemma_wf();
            }
            compute_q_bitset(v, g, &b)
        },
    }
}

/// `TW` of the whole vertex set, by dynamic programming over the sets of vertices.
pub fn treewidth(graph: &Graph) -> (r: usize)
    requires
        graph.wf(),
        graph@.len() < 64,
        graph@.len() < usize::BITS,
    ensures
        r == dp_width(graph@, all_vertices(graph@.len() as int)),
{
    let ghost g = graph@;
    let n = vertex_count(graph);
    let size: u64 = 1u64 << (n as u64);
    proof {
        lemma_bit64_low_mask(n as u64, 0);
        assert(size as int <= usize::MAX) by {
            lemma_size_fits(n as u64);
        }
    }
    let mut table: Vec<usize> = Vec::new();
    table.push(0);
    proof {
        assert(word64_set(0) =~= Set::<int>::empty()) by {
            assert forall|i: int| !#[trigger] word64_set(0).contains(i) by {
                crate::utils::bitset::lemma_bit64_zero_max(i as u64);
            }
        }
    }
    let mut mask: u64 = 1;
    while mask < size
        invariant
            graph.wf(),
            g == graph@,
            n == g.len(),
            n < 64,
            size == 1u64 << (n as u64),
            size as int <= usize::MAX,
            1 <= mask <= size,
            table@.len() == mask,
            forall|m: int| 0 <= m < mask ==> #[trigger] table@[m] == dp_width(g, word64_set(m as u64)),
        decreases size - mask,
    {
        let ghost s = word64_set(mask);
        proof {
            lemma_word64_finite(mask);
        }
        let mut min: usize = usize::MAX;
        let mut v: usize = 0;
        while v < n
            invariant
                graph.wf(),
                g == graph@,
                n == g.len(),
                n < 64,
                size == 1u64 << (n as u64),
                size as int <= usize::MAX,
                1 <= mask < size,
                s == word64_set(mask),
                s.finite(),
                table@.len() == mask,
                forall|m: int| 0 <= m < mask ==> #[trigger] table@[m] == dp_width(g, word64_set(m as u64)),
                v <= n,
                min == dp_best(g, s, v as int),
            decreases n - v,
        {
            proof {
                crate::utils::bitset::lemma_bit64_test(mask, v as u64);
            }
            if mask & (1u64 << (v as u64)) != 0 {
                let sub = mask & !(1u64 << (v as u64));
                proof {
                    lemma_clear_below(mask, v as u64);
                    assert(word64_set(sub) =~= s.remove(v as int)) by {
                        assert forall|i: int| #[trigger] word64_set(sub).contains(i) == s.remove(v as int).contains(i) by {
                            if 0 <= i < 64 {
                                lemma_bit64_clear_single(mask, v as u64, i as u64);
                            }
                        }
                    }
                    assert(s.contains(v as int));
                }
                let q = q_of(graph, v, sub);
                let idx = sub as usize;
                proof {
                    assert(idx as int == sub as int);
                    assert(table@[idx as int] == dp_width(g, word64_set((idx as int) as u64)));
                }
                let tw = table[idx];
                let val = if tw < q {
                    q
                } else {
                    tw
                };
                if val < min {
                    min = val;
                }
            }
            v = v + 1;
        }
        proof {
            assert(s.len() != 0) by {
                assert(mask != 0);
                lemma_some_bit(mask);
                let i = choose|i: u64| i < 64 && bit64(mask, i);
                assert(s.contains(i as int));
            }
        }
        table.push(min);
        mask = mask + 1;
    }
    proof {
        assert(word64_set((size - 1) as u64) =~= all_vertices(n as int)) by {
            assert forall|i: int| #[trigger] word64_set((size - 1) as u64).contains(i) == all_vertices(n as int).contains(i) by {
                if 0 <= i < 64 {
                    lemma_bit64_low_mask(n as u64, i as u64);
                }
            }
        }
    }
    table[(size - 1) as usize]
}

proof fn lemma_size_fits(n: u64)
    requires
        n < 64,
        n < usize::BITS,
    ensures
        (1u64 << n) as int <= usize::MAX,
{
    if usize::BITS == 64 {
        assert((1u64 << n) <= 0xffff_ffff_ffff_ffffu64) by (bit_vector);
    } else {
        assert(n < 32 ==> (1u64 << n) <= 0xffff_ffffu64) by (bit_vector);
    }
}

proof fn lemma_some_bit(x: u64)
    requires
        x != 0,
    ensures
        exists|i: u64| i < 64 && bit64(x, i),
    decreases x,
{
    crate::utils::bitset::lemma_bit64_shr1(x, 0);
    if (x & 1u64) != 0 {
        assert(bit64(x, 0));
    } else {
        lemma_shift_nonzero(x);
        lemma_some_bit(x >> 1u64);
        let i = choose|i: u64| i < 64 && bit64(x >> 1u64, i);
        crate::utils::bitset::lemma_bit64_shr1(x, i);
        assert(bit64(x, (i + 1) as u64));
    }
}

proof fn lemma_shift_nonzero(x: u64)
    by (bit_vector)
    requires
        x != 0,
        x & 1u64 == 0,
    ensures
        x >> 1u64 != 0,
        x >> 1u64 < x,
{
}

} // verus!
