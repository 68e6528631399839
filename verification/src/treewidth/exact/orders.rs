//! Vertex orderings and their width.
//!
//! Eliminating the vertices in the order of a sequence `p`, after the vertices of a set `left`,
//! costs at each vertex the number of vertices outside `left` and the earlier ones that it
//! reaches through them. The largest cost is the width of the ordering. The dynamic program and
//! the recursion over balanced splits both compute the least width of an ordering, so they agree.

use vstd::prelude::*;
use crate::graph::model::Nbrs;
use crate::treewidth::exact::dynamic_prog::{all_vertices, dp_best, dp_width};
use crate::treewidth::exact::reach::q_set;
use crate::treewidth::exact::rec::{rec_best, rec_width, single};
use crate::treewidth::exact::{combos, increasing, lemma_combos_props, lemma_increasing_set_len, seq_set, sorted_list};
use crate::treewidth::width::max_nat;
use crate::utils::bitset::lists_in_order;

verus! {

/// Whether `p` lists each element of `s` exactly once.
pub open spec fn is_ordering(p: Seq<int>, s: Set<int>) -> bool {
    p.no_duplicates() && p.to_set() == s
}

/// The width of eliminating the vertices of `p` in order after those of `left`.
pub open spec fn order_width(g: Nbrs, left: Set<int>, p: Seq<int>) -> nat
    decreases p.len(),
{
    if p.len() == 0 {
        0
    } else {
        max_nat(
            order_width(g, left, p.drop_last()),
            q_set(g, left.union(p.drop_last().to_set()), p.last()).len(),
        )
    }
}

/// Eliminating `p1` and then `p2` costs the larger of the two widths, the second taken after
/// `p1`.
pub proof fn lemma_order_width_concat(g: Nbrs, left: Set<int>, p1: Seq<int>, p2: Seq<int>)
    ensures
        order_width(g, left, p1 + p2) == max_nat(
            order_width(g, left, p1),
            order_width(g, left.union(p1.to_set()), p2),
        ),
    decreases p2.len(),
{
    if p2.len() == 0 {
        assert(p1 + p2 =~= p1);
    } else {
        let q = p2.drop_last();
        lemma_order_width_concat(g, left, p1, q);
        assert((p1 + p2).drop_last() =~= p1 + q);
        assert((p1 + p2).last() == p2.last());
        vstd::seq_lib::seq_to_set_distributes_over_add(p1, q);
        assert(left.union((p1 + q).to_set()) =~= left.union(p1.to_set()).union(q.to_set()));
    }
}

/// The vertices a vertex reaches outside a set are vertices of the graph.
pub proof fn lemma_q_bounded(g: Nbrs, left: Set<int>, v: int)
    ensures
        q_set(g, left, v).finite(),
        q_set(g, left, v).len() <= g.len(),
{
    vstd::set_lib::lemma_int_range(0, g.len() as int);
    assert(q_set(g, left, v).subset_of(vstd::set_lib::set_int_range(0, g.len() as int)));
    vstd::set_lib::lemma_len_subset(q_set(g, left, v), vstd::set_lib::set_int_range(0, g.len() as int));
}

/// An ordering of a set minus its last vertex orders the rest of the set.
proof fn lemma_ordering_drop_last(p: Seq<int>, s: Set<int>)
    requires
        is_ordering(p, s),
        p.len() > 0,
    ensures
        is_ordering(p.drop_last(), s.remove(p.last())),
        s.contains(p.last()),
{
    let q = p.drop_last();
    assert(p[p.len() - 1] == p.last());
    assert(q.to_set() =~= s.remove(p.last())) by {
        assert forall|x: int| #[trigger] q.to_set().contains(x) == s.remove(p.last()).contains(x) by {
            if q.to_set().contains(x) {
                let i = choose|i: int| 0 <= i < q.len() && q[i] == x;
                assert(p[i] == x);
                assert(p.contains(x));
            }
            if s.remove(p.last()).contains(x) {
                assert(p.to_set().contains(x));
                let i = choose|i: int| 0 <= i < p.len() && p[i] == x;
                assert(q[i] == x);
                assert(q.contains(x));
            }
        }
    }
    assert(p.contains(p.last()));
}

/// The value the dynamic program gives to eliminating `v` last among `s`.
pub open spec fn dp_val(g: Nbrs, s: Set<int>, v: int) -> nat {
    max_nat(dp_width(g, s.remove(v)), q_set(g, s.remove(v), v).len())
}

proof fn lemma_dp_best_le(g: Nbrs, s: Set<int>, k: int, v: int)
    requires
        s.finite(),
        0 <= v < k,
        s.contains(v),
    ensures
        dp_best(g, s, k) <= dp_val(g, s, v),
    decreases k,
{
    if v < k - 1 {
        lemma_dp_best_le(g, s, k - 1, v);
    }
}

proof fn lemma_dp_best_bounded(g: Nbrs, s: Set<int>, k: int)
    requires
        s.finite(),
    ensures
        dp_best(g, s, k) <= usize::MAX,
    decreases k,
{
    if k > 0 {
        lemma_dp_best_bounded(g, s, k - 1);
    }
}

proof fn lemma_dp_width_bounded(g: Nbrs, s: Set<int>)
    requires
        s.finite(),
    ensures
        dp_width(g, s) <= usize::MAX,
{
    if s.len() > 0 {
        lemma_dp_best_bounded(g, s, g.len() as int);
    }
}

/// The dynamic program's choice among the vertices below `k` is the value of one of them.
proof fn lemma_dp_best_attained(g: Nbrs, s: Set<int>, k: int) -> (v: int)
    requires
        s.finite(),
        g.len() <= usize::MAX,
        exists|u: int| 0 <= u < k && s.contains(u),
    ensures
        0 <= v < k,
        s.contains(v),
        dp_best(g, s, k) == dp_val(g, s, v),
    decreases k,
{
    if exists|u: int| 0 <= u < k - 1 && s.contains(u) {
        let u = lemma_dp_best_attained(g, s, k - 1);
        if s.contains(k - 1) && dp_val(g, s, k - 1) < dp_best(g, s, k - 1) {
            k - 1
        } else {
            u
        }
    } else {
        lemma_dp_best_none(g, s, k - 1);
        lemma_dp_width_bounded(g, s.remove(k - 1));
        lemma_q_bounded(g, s.remove(k - 1), k - 1);
        k - 1
    }
}

proof fn lemma_dp_best_none(g: Nbrs, s: Set<int>, k: int)
    requires
        s.finite(),
        forall|u: int| 0 <= u < k ==> !s.contains(u),
    ensures
        dp_best(g, s, k) == usize::MAX,
    decreases k,
{
    if k > 0 {
        lemma_dp_best_none(g, s, k - 1);
    }
}

/// The dynamic program's value on `s` is at most the width of any ordering of `s`.
pub proof fn lemma_dp_below(g: Nbrs, s: Set<int>, p: Seq<int>)
    requires
        s.finite(),
        is_ordering(p, s),
        forall|x: int| #[trigger] s.contains(x) ==> 0 <= x < g.len(),
    ensures
        dp_width(g, s) <= order_width(g, Set::empty(), p),
    decreases p.len(),
{
    if p.len() == 0 {
        assert(s =~= Set::<int>::empty()) by {
            assert forall|x: int| !s.contains(x) by {
                if s.contains(x) {
                    assert(p.to_set().contains(x));
                }
            }
        }
    } else {
        let x = p.last();
        let q = p.drop_last();
        lemma_ordering_drop_last(p, s);
        lemma_dp_below(g, s.remove(x), q);
        lemma_dp_best_le(g, s, g.len() as int, x);
        assert(Set::<int>::empty().union(q.to_set()) =~= s.remove(x));
    }
}

/// Some ordering of `s` has exactly the dynamic program's value as its width.
#[verifier::spinoff_prover]
pub proof fn lemma_dp_attained(g: Nbrs, s: Set<int>) -> (p: Seq<int>)
    requires
        s.finite(),
        g.len() <= usize::MAX,
        forall|x: int| #[trigger] s.contains(x) ==> 0 <= x < g.len(),
    ensures
        is_ordering(p, s),
        order_width(g, Set::empty(), p) == dp_width(g, s),
    decreases s.len(),
{
    if s.len() == 0 {
        assert(s =~= Set::<int>::empty());
        let p = Seq::<int>::empty();
        assert(p.to_set() =~= s);
        p
    } else {
        let w = s.choose();
        assert(s.contains(w));
        let v = lemma_dp_best_attained(g, s, g.len() as int);
        let q = lemma_dp_attained(g, s.remove(v));
        let p = q.push(v);
        assert(p.drop_last() =~= q);
        assert(p.to_set() =~= s) by {
            assert forall|x: int| #[trigger] p.to_set().contains(x) == s.contains(x) by {
                if p.to_set().contains(x) {
                    let i = choose|i: int| 0 <= i < p.len() && p[i] == x;
                    if i < q.len() {
                        assert(q[i] == x);
                        assert(q.contains(x));
                    }
                }
                if s.contains(x) {
                    if x == v {
                        assert(p[q.len() as int] == x);
                    } else {
                        assert(q.to_set().contains(x));
                        let i = choose|i: int| 0 <= i < q.len() && q[i] == x;
                        assert(p[i] == x);
                    }
                    assert(p.contains(x));
                }
            }
        }
        assert(p.no_duplicates()) by {
            assert forall|i: int, j: int| 0 <= i < p.len() && 0 <= j < p.len() && i != j implies p[i] != p[j] by {
                if i < q.len() && j < q.len() {
                    assert(p[i] == q[i] && p[j] == q[j]);
                } else if i < q.len() {
                    assert(q.contains(q[i]));
                    assert(q.to_set().contains(q[i]));
                } else if j < q.len() {
                    assert(q.contains(q[j]));
                    assert(q.to_set().contains(q[j]));
                }
            }
        }
        assert(Set::<int>::empty().union(q.to_set()) =~= s.remove(v));
        p
    }
}

/// Whether `a` splits `s` into two nonempty parts.
pub open spec fn valid_split(s: Set<int>, a: Set<int>) -> bool {
    a.finite() && a.len() < s.len() && s.difference(a).len() < s.len()
}

/// The value the recursion gives to eliminating `a` before the rest of `s`.
pub open spec fn rec_val(g: Nbrs, left: Set<int>, s: Set<int>, a: Set<int>) -> nat {
    max_nat(rec_width(g, left, a), rec_width(g, left.union(a), s.difference(a)))
}

proof fn lemma_rec_best_le(g: Nbrs, left: Set<int>, s: Set<int>, cs: Seq<Seq<usize>>, i: int, j: int)
    requires
        s.finite(),
        0 <= j < i,
        valid_split(s, seq_set(cs[j])),
    ensures
        rec_best(g, left, s, cs, i) <= rec_val(g, left, s, seq_set(cs[j])),
    decreases i,
{
    if j < i - 1 {
        lemma_rec_best_le(g, left, s, cs, i - 1, j);
    }
}

proof fn lemma_rec_best_none(g: Nbrs, left: Set<int>, s: Set<int>, cs: Seq<Seq<usize>>, i: int)
    requires
        s.finite(),
        forall|j: int| 0 <= j < i ==> !valid_split(s, #[trigger] seq_set(cs[j])),
    ensures
        rec_best(g, left, s, cs, i) == usize::MAX,
    decreases i,
{
    if i > 0 {
        lemma_rec_best_none(g, left, s, cs, i - 1);
    }
}

proof fn lemma_rec_best_bounded(g: Nbrs, left: Set<int>, s: Set<int>, cs: Seq<Seq<usize>>, i: int)
    requires
        s.finite(),
    ensures
        rec_best(g, left, s, cs, i) <= usize::MAX,
    decreases i,
{
    if i > 0 {
        lemma_rec_best_bounded(g, left, s, cs, i - 1);
    }
}

proof fn lemma_rec_width_bounded(g: Nbrs, left: Set<int>, s: Set<int>)
    requires
        s.finite(),
        g.len() <= usize::MAX,
    ensures
        rec_width(g, left, s) <= usize::MAX,
{
    if s.len() == 1 {
        lemma_q_bounded(g, left, single(s));
    } else {
        let cs = combos(sorted_list(s), s.len() / 2);
        lemma_rec_best_bounded(g, left, s, cs, cs.len() as int);
    }
}

/// The recursion's choice among the first `i` splits is the value of one of them.
proof fn lemma_rec_best_attained(g: Nbrs, left: Set<int>, s: Set<int>, cs: Seq<Seq<usize>>, i: int) -> (j: int)
    requires
        s.finite(),
        g.len() <= usize::MAX,
        exists|j: int| 0 <= j < i && valid_split(s, #[trigger] seq_set(cs[j])),
    ensures
        0 <= j < i,
        valid_split(s, seq_set(cs[j])),
        rec_best(g, left, s, cs, i) == rec_val(g, left, s, seq_set(cs[j])),
    decreases i,
{
    if exists|u: int| 0 <= u < i - 1 && valid_split(s, #[trigger] seq_set(cs[u])) {
        let u = lemma_rec_best_attained(g, left, s, cs, i - 1);
        let a = seq_set(cs[i - 1]);
        if valid_split(s, a) && rec_val(g, left, s, a) < rec_best(g, left, s, cs, i - 1) {
            i - 1
        } else {
            u
        }
    } else {
        lemma_rec_best_none(g, left, s, cs, i - 1);
        let a = seq_set(cs[i - 1]);
        lemma_rec_width_bounded(g, left, a);
        lemma_rec_width_bounded(g, left.union(a), s.difference(a));
        i - 1
    }
}

/// The elements of `s` below `k`, in increasing order.
pub open spec fn listing_below(s: Set<int>, k: int) -> Seq<usize>
    decreases k,
{
    if k <= 0 {
        Seq::empty()
    } else if s.contains(k - 1) {
        listing_below(s, k - 1).push((k - 1) as usize)
    } else {
        listing_below(s, k - 1)
    }
}

proof fn lemma_listing_below(s: Set<int>, k: int)
    requires
        0 <= k <= usize::MAX + 1,
    ensures
        lists_in_order(listing_below(s, k), s.filter(|x: int| 0 <= x < k)),
        forall|i: int| 0 <= i < listing_below(s, k).len() ==> #[trigger] listing_below(s, k)[i] < k,
    decreases k,
{
    if k > 0 {
        lemma_listing_below(s, k - 1);
        let l = listing_below(s, k - 1);
        let t = s.filter(|x: int| 0 <= x < k);
        let t0 = s.filter(|x: int| 0 <= x < k - 1);
        if s.contains(k - 1) {
            let m = l.push((k - 1) as usize);
            assert forall|x: int| t.contains(x) implies exists|a: int| 0 <= a < m.len() && m[a] == x by {
                if x == k - 1 {
                    assert(m[l.len() as int] == x);
                } else {
                    assert(t0.contains(x));
                    let a = choose|a: int| 0 <= a < l.len() && l[a] == x;
                    assert(m[a] == x);
                }
            }
            assert forall|a: int| 0 <= a < m.len() implies t.contains(#[trigger] m[a] as int) by {
                if a < l.len() {
                    assert(m[a] == l[a]);
                    assert(t0.contains(l[a] as int));
                }
            }
            assert forall|a: int, b: int| 0 <= a < b < m.len() implies m[a] < m[b] by {
                if b < l.len() {
                    assert(m[a] == l[a] && m[b] == l[b]);
                } else {
                    assert(m[a] == l[a]);
                }
            }
        } else {
            assert forall|x: int| t.contains(x) implies exists|a: int| 0 <= a < l.len() && l[a] == x by {
                assert(t0.contains(x));
            }
            assert forall|a: int| 0 <= a < l.len() implies t.contains(#[trigger] l[a] as int) by {
                assert(t0.contains(l[a] as int));
            }
        }
    }
}

/// A set of vertices below `n` has a listing in increasing order.
pub proof fn lemma_sorted_list_exists(s: Set<int>, n: int)
    requires
        0 <= n <= usize::MAX + 1,
        forall|x: int| #[trigger] s.contains(x) ==> 0 <= x < n,
    ensures
        lists_in_order(sorted_list(s), s),
        increasing(sorted_list(s)),
        seq_set(sorted_list(s)) == s,
{
    lemma_listing_below(s, n);
    assert(s.filter(|x: int| 0 <= x < n) =~= s);
    let l = sorted_list(s);
    assert(lists_in_order(l, s));
    assert(seq_set(l) =~= s) by {
        assert forall|x: int| #[trigger] seq_set(l).contains(x) == s.contains(x) by {
            if seq_set(l).contains(x) {
                let i = choose|i: int| 0 <= i < l.len() && l[i] == x;
                assert(s.contains(l[i] as int));
            }
        }
    }
}

/// Every set of `k` entries of an increasing list is one of its `k`-selections.
#[verifier::spinoff_prover]
pub proof fn lemma_combos_complete(l: Seq<usize>, k: nat, a: Set<int>) -> (j: int)
    requires
        increasing(l),
        a.finite(),
        a.len() == k,
        a.subset_of(seq_set(l)),
    ensures
        0 <= j < combos(l, k).len(),
        seq_set(combos(l, k)[j]) == a,
    decreases l.len(),
{
    lemma_increasing_set_len(l);
    if k == 0 {
        assert(a =~= Set::<int>::empty());
        assert(seq_set(Seq::<usize>::empty()) =~= Set::<int>::empty());
        0
    } else {
        vstd::set_lib::lemma_len_subset(a, seq_set(l));
        let rest = l.drop_first();
        assert(increasing(rest));
        let first = combos(rest, (k - 1) as nat);
        let second = combos(rest, k);
        let head = first.map_values(|c: Seq<usize>| seq![l[0]] + c);
        assert(combos(l, k) == head + second);
        assert(!seq_set(rest).contains(l[0] as int)) by {
            if seq_set(rest).contains(l[0] as int) {
                let i = choose|i: int| 0 <= i < rest.len() && rest[i] == l[0] as int;
                assert(l[i + 1] == rest[i]);
            }
        }
        if a.contains(l[0] as int) {
            let a2 = a.remove(l[0] as int);
            assert(a2.subset_of(seq_set(rest))) by {
                assert forall|x: int| a2.contains(x) implies seq_set(rest).contains(x) by {
                    assert(seq_set(l).contains(x));
                    let i = choose|i: int| 0 <= i < l.len() && l[i] == x;
                    assert(i != 0);
                    assert(rest[i - 1] == x);
                }
            }
            let j2 = lemma_combos_complete(rest, (k - 1) as nat, a2);
            let c = first[j2];
            assert(combos(l, k)[j2] == seq![l[0]] + c);
            assert(seq_set(seq![l[0]] + c) =~= a) by {
                assert forall|x: int| #[trigger] seq_set(seq![l[0]] + c).contains(x) == a.contains(x) by {
                    if seq_set(seq![l[0]] + c).contains(x) {
                        let i = choose|i: int| 0 <= i < (seq![l[0]] + c).len() && (seq![l[0]] + c)[i] == x;
                        if i > 0 {
                            assert(c[i - 1] == x);
                            assert(seq_set(c).contains(x));
                        }
                    }
                    if a.contains(x) && x != l[0] as int {
                        assert(seq_set(c).contains(x));
                        let i = choose|i: int| 0 <= i < c.len() && c[i] == x;
                        assert((seq![l[0]] + c)[i + 1] == x);
                    }
                    if x == l[0] as int {
                        assert((seq![l[0]] + c)[0] == x);
                    }
                }
            }
            j2
        } else {
            assert(a.subset_of(seq_set(rest))) by {
                assert forall|x: int| a.contains(x) implies seq_set(rest).contains(x) by {
                    assert(seq_set(l).contains(x));
                    let i = choose|i: int| 0 <= i < l.len() && l[i] == x;
                    assert(i != 0);
                    assert(rest[i - 1] == x);
                }
            }
            let j2 = lemma_combos_complete(rest, k, a);
            assert(combos(l, k)[head.len() + j2] == second[j2]);
            head.len() + j2
        }
    }
}

/// Each selection of `s.len() / 2` elements of a set of at least two vertices splits it.
proof fn lemma_selection_splits(s: Set<int>, n: int, j: int)
    requires
        s.finite(),
        s.len() >= 2,
        0 <= n <= usize::MAX + 1,
        forall|x: int| #[trigger] s.contains(x) ==> 0 <= x < n,
        0 <= j < combos(sorted_list(s), s.len() / 2).len(),
    ensures
        valid_split(s, seq_set(combos(sorted_list(s), s.len() / 2)[j])),
        seq_set(combos(sorted_list(s), s.len() / 2)[j]).subset_of(s),
        seq_set(combos(sorted_list(s), s.len() / 2)[j]).len() == s.len() / 2,
        s.difference(seq_set(combos(sorted_list(s), s.len() / 2)[j])).len() == s.len() - s.len() / 2,
{
    let l = sorted_list(s);
    let k = s.len() / 2;
    lemma_sorted_list_exists(s, n);
    lemma_combos_props(l, k, j);
    let c = combos(l, k)[j];
    lemma_increasing_set_len(c);
    let a = seq_set(c);
    assert(a.subset_of(s)) by {
        assert forall|x: int| a.contains(x) implies s.contains(x) by {
            let t = choose|t: int| 0 <= t < c.len() && c[t] == x;
            assert(l.contains(c[t]));
            let i = choose|i: int| 0 <= i < l.len() && l[i] == c[t];
            assert(s.contains(l[i] as int));
        }
    }
    vstd::set_lib::lemma_set_difference_len(s, a);
    assert(s.intersect(a) =~= a);
}

/// The recursion's value on `s` after `left` is at most the width of any ordering of `s`.
#[verifier::spinoff_prover]
pub proof fn lemma_rec_below(g: Nbrs, left: Set<int>, s: Set<int>, p: Seq<int>)
    requires
        s.finite(),
        s.len() >= 1,
        is_ordering(p, s),
        g.len() <= usize::MAX,
        forall|x: int| #[trigger] s.contains(x) ==> 0 <= x < g.len(),
    ensures
        rec_width(g, left, s) <= order_width(g, left, p),
    decreases s.len(),
{
    p.unique_seq_to_set();
    if s.len() == 1 {
        assert(p.len() == 1);
        assert(s.contains(p[0])) by {
            assert(p.contains(p[0]));
        }
        assert(s =~= set![p[0]]) by {
            assert forall|x: int| #[trigger] s.contains(x) implies x == p[0] by {
                assert(p.to_set().contains(x));
            }
        }
        assert(single(s) == p[0]);
        assert(p.drop_last() =~= Seq::<int>::empty());
        assert(left.union(Seq::<int>::empty().to_set()) =~= left);
        assert(p.last() == p[0]);
    } else {
        let k = s.len() / 2;
        let l = sorted_list(s);
        let cs = combos(l, k);
        lemma_sorted_list_exists(s, g.len() as int);
        let p1 = p.take(k as int);
        let p2 = p.skip(k as int);
        assert(p =~= p1 + p2);
        assert(p1.no_duplicates() && p2.no_duplicates());
        p1.unique_seq_to_set();
        p2.unique_seq_to_set();
        let a = p1.to_set();
        let b = p2.to_set();
        assert(a.subset_of(s)) by {
            assert forall|x: int| a.contains(x) implies s.contains(x) by {
                let i = choose|i: int| 0 <= i < p1.len() && p1[i] == x;
                assert(p[i] == x);
                assert(p.contains(x));
            }
        }
        assert(b =~= s.difference(a)) by {
            assert forall|x: int| #[trigger] b.contains(x) == s.difference(a).contains(x) by {
                if b.contains(x) {
                    let i = choose|i: int| 0 <= i < p2.len() && p2[i] == x;
                    assert(p[i + k] == x);
                    assert(p.contains(x));
                    if a.contains(x) {
                        let i2 = choose|i2: int| 0 <= i2 < p1.len() && p1[i2] == x;
                        assert(p[i2] == x);
                    }
                }
                if s.difference(a).contains(x) {
                    assert(p.to_set().contains(x));
                    let i = choose|i: int| 0 <= i < p.len() && p[i] == x;
                    if i < k {
                        assert(p1[i] == x);
                        assert(p1.contains(x));
                    } else {
                        assert(p2[i - k] == x);
                        assert(p2.contains(x));
                    }
                }
            }
        }
        assert(a.subset_of(seq_set(l)));
        let j = lemma_combos_complete(l, k, a);
        vstd::set_lib::lemma_set_difference_len(s, a);
        assert(s.intersect(a) =~= a);
        lemma_rec_best_le(g, left, s, cs, cs.len() as int, j);
        assert forall|x: int| #[trigger] a.contains(x) implies 0 <= x < g.len() by {
            assert(s.contains(x));
        }
        assert forall|x: int| #[trigger] b.contains(x) implies 0 <= x < g.len() by {
            assert(s.contains(x));
        }
        lemma_rec_below(g, left, a, p1);
        lemma_rec_below(g, left.union(a), b, p2);
        lemma_order_width_concat(g, left, p1, p2);
    }
}

/// Some ordering of `s` has exactly the recursion's value after `left` as its width.
#[verifier::spinoff_prover]
pub proof fn lemma_rec_attained(g: Nbrs, left: Set<int>, s: Set<int>) -> (p: Seq<int>)
    requires
        s.finite(),
        s.len() >= 1,
        g.len() <= usize::MAX,
        forall|x: int| #[trigger] s.contains(x) ==> 0 <= x < g.len(),
    ensures
        is_ordering(p, s),
        order_width(g, left, p) == rec_width(g, left, s),
    decreases s.len(),
{
    if s.len() == 1 {
        let v = s.choose();
        assert(s.contains(v));
        assert(s.remove(v).len() == 0);
        assert(s =~= set![v]) by {
            assert forall|x: int| #[trigger] s.contains(x) implies x == v by {
                if x != v {
                    assert(s.remove(v).contains(x));
                }
            }
        }
        assert(single(s) == v);
        let p = seq![v];
        assert(p.to_set() =~= s) by {
            assert(p.contains(v)) by {
                assert(p[0] == v);
            }
        }
        assert(p.drop_last() =~= Seq::<int>::empty());
        assert(left.union(Seq::<int>::empty().to_set()) =~= left);
        assert(p.last() == v);
        assert(order_width(g, left, p.drop_last()) == 0);
        assert(left.union(p.drop_last().to_set()) =~= left);
        assert(order_width(g, left, p) == q_set(g, left, v).len());
        p
    } else {
        let k = s.len() / 2;
        let l = sorted_list(s);
        let cs = combos(l, k);
        lemma_sorted_list_exists(s, g.len() as int);
        let a0 = seq_set(l.take(k as int));
        crate::treewidth::exact::lemma_listing_len(l, s);
        assert(increasing(l.take(k as int))) by {
            assert forall|x: int, y: int| 0 <= x < y < l.take(k as int).len() implies l.take(k as int)[x] < l.take(k as int)[y] by {
                assert(l.take(k as int)[x] == l[x] && l.take(k as int)[y] == l[y]);
            }
        }
        lemma_increasing_set_len(l.take(k as int));
        lemma_increasing_set_len(l);
        assert(a0.subset_of(seq_set(l))) by {
            assert forall|x: int| a0.contains(x) implies seq_set(l).contains(x) by {
                let i = choose|i: int| 0 <= i < l.take(k as int).len() && l.take(k as int)[i] == x;
                assert(l[i] == x);
            }
        }
        let j0 = lemma_combos_complete(l, k, a0);
        lemma_selection_splits(s, g.len() as int, j0);
        let j = lemma_rec_best_attained(g, left, s, cs, cs.len() as int);
        lemma_selection_splits(s, g.len() as int, j);
        let a = seq_set(cs[j]);
        let b = s.difference(a);
        assert forall|x: int| #[trigger] a.contains(x) implies 0 <= x < g.len() by {
            assert(s.contains(x));
        }
        let p1 = lemma_rec_attained(g, left, a);
        let p2 = lemma_rec_attained(g, left.union(a), b);
        let p = p1 + p2;
        assert forall|i: int, t: int| 0 <= i < p1.len() && 0 <= t < p2.len() implies p1[i] != p2[t] by {
            assert(p1.contains(p1[i]));
            assert(p2.contains(p2[t]));
            assert(p1.to_set().contains(p1[i]));
            assert(p2.to_set().contains(p2[t]));
        }
        vstd::seq_lib::lemma_no_dup_in_concat(p1, p2);
        vstd::seq_lib::seq_to_set_distributes_over_add(p1, p2);
        assert(p.to_set() =~= s);
        lemma_order_width_concat(g, left, p1, p2);
        assert(order_width(g, left, p) == rec_val(g, left, s, a));
        assert(rec_width(g, left, s) == rec_best(g, left, s, cs, cs.len() as int));
        p
    }
}

/// The dynamic program finds the least width of an ordering of the vertices: no ordering is
/// narrower, and some ordering is exactly as wide.
pub proof fn lemma_dp_least_order_width(g: Nbrs, p: Seq<int>)
    requires
        g.len() <= usize::MAX,
        is_ordering(p, all_vertices(g.len() as int)),
    ensures
        dp_width(g, all_vertices(g.len() as int)) <= order_width(g, Set::empty(), p),
        exists|q: Seq<int>|
            is_ordering(q, all_vertices(g.len() as int)) && order_width(g, Set::empty(), q) == dp_width(
                g,
                all_vertices(g.len() as int),
            ),
{
    let s = all_vertices(g.len() as int);
    vstd::set_lib::lemma_int_range(0, g.len() as int);
    assert(s =~= vstd::set_lib::set_int_range(0, g.len() as int));
    lemma_dp_below(g, s, p);
    let q = lemma_dp_attained(g, s);
}

/// The recursion over balanced splits finds the least width of an ordering of the vertices of
/// a graph with at least one vertex: no ordering is narrower, and some ordering is exactly as
/// wide.
pub proof fn lemma_rec_least_order_width(g: Nbrs, p: Seq<int>)
    requires
        1 <= g.len() <= usize::MAX,
        is_ordering(p, all_vertices(g.len() as int)),
    ensures
        rec_width(g, Set::empty(), all_vertices(g.len() as int)) <= order_width(g, Set::empty(), p),
        exists|q: Seq<int>|
            is_ordering(q, all_vertices(g.len() as int)) && order_width(g, Set::empty(), q) == rec_width(
                g,
                Set::empty(),
                all_vertices(g.len() as int),
            ),
{
    let s = all_vertices(g.len() as int);
    vstd::set_lib::lemma_int_range(0, g.len() as int);
    assert(s =~= vstd::set_lib::set_int_range(0, g.len() as int));
    lemma_rec_below(g, Set::empty(), s, p);
    let q = lemma_rec_attained(g, Set::empty(), s);
}

/// The dynamic program and the recursion over balanced splits find the same width on every
/// graph with at least one vertex.
pub proof fn lemma_dp_equals_rec(g: Nbrs)
    requires
        1 <= g.len() <= usize::MAX,
    ensures
        dp_width(g, all_vertices(g.len() as int)) == rec_width(g, Set::empty(), all_vertices(g.len() as int)),
{
    let s = all_vertices(g.len() as int);
    vstd::set_lib::lemma_int_range(0, g.len() as int);
    assert(s =~= vstd::set_lib::set_int_range(0, g.len() as int));
    let p1 = lemma_dp_attained(g, s);
    let p2 = lemma_rec_attained(g, Set::empty(), s);
    lemma_dp_below(g, s, p2);
    lemma_rec_below(g, Set::empty(), s, p1);
}

} // verus!
