//! Maximum flow by Dinic's algorithm, stopped once the flow reaches a limit, and the vertices
//! the source still reaches in the residual network.
//!
//! Arcs are stored in pairs: arc `2i` is the `i`-th arc given, arc `2i + 1` its reverse with no
//! capacity; pushing flow along an arc moves capacity to its partner.

use vstd::prelude::*;

verus! {

/// The partner of arc `e`.
pub open spec fn partner(e: int) -> int {
    if e % 2 == 0 {
        e + 1
    } else {
        e - 1
    }
}

/// The tail of arc `e`: the head of its partner.
pub open spec fn tail(to: Seq<usize>, e: int) -> int {
    to[partner(e)] as int
}

/// Pushing `a` units along arc `e`: its residual capacity drops by `a`, its partner's rises.
pub open spec fn push_arc(cap: Seq<usize>, e: int, a: int) -> Seq<usize> {
    cap.update(e, (cap[e] - a) as usize).update(partner(e), (cap[partner(e)] + a) as usize)
}

/// Pushing `a` units along every arc of `p`.
pub open spec fn push_path(cap: Seq<usize>, p: Seq<int>, a: int) -> Seq<usize>
    decreases p.len(),
{
    if p.len() == 0 {
        cap
    } else {
        push_arc(push_path(cap, p.drop_first(), a), p[0], a)
    }
}

/// Whether the arcs `p` lead from `x` to `y`, each with residual capacity at least `a`.
pub open spec fn arc_path(to: Seq<usize>, cap: Seq<usize>, x: int, y: int, p: Seq<int>, a: int) -> bool
    decreases p.len(),
{
    if p.len() == 0 {
        x == y
    } else {
        &&& 0 <= p[0] < cap.len()
        &&& tail(to, p[0]) == x
        &&& cap[p[0]] >= a
        &&& arc_path(to, cap, to[p[0]] as int, y, p.drop_first(), a)
    }
}

/// Whether the arcs `p` lead from `x` to `y`, each with residual capacity at least `a` and each
/// one level up.
pub open spec fn level_path(to: Seq<usize>, cap: Seq<usize>, level: Seq<i32>, x: int, y: int, p: Seq<int>, a: int) -> bool
    decreases p.len(),
{
    if p.len() == 0 {
        x == y
    } else {
        &&& 0 <= p[0] < cap.len()
        &&& tail(to, p[0]) == x
        &&& cap[p[0]] >= a
        &&& level[to[p[0]] as int] == level[x] + 1
        &&& level_path(to, cap, level, to[p[0]] as int, y, p.drop_first(), a)
    }
}

/// Along a path one level up, the `k`-th arc leaves level `level[x] + k`.
proof fn lemma_level_path_levels(to: Seq<usize>, cap: Seq<usize>, level: Seq<i32>, x: int, y: int, p: Seq<int>, a: int)
    requires
        level_path(to, cap, level, x, y, p, a),
    ensures
        arc_path(to, cap, x, y, p, a),
        forall|k: int|
            0 <= k < p.len() ==> 0 <= #[trigger] p[k] < cap.len() && level[tail(to, p[k])] == level[x] + k
                && level[to[p[k]] as int] == level[x] + k + 1,
    decreases p.len(),
{
    if p.len() > 0 {
        let rest = p.drop_first();
        lemma_level_path_levels(to, cap, level, to[p[0]] as int, y, rest, a);
        assert forall|k: int| 0 <= k < p.len() implies 0 <= #[trigger] p[k] < cap.len() && level[tail(to, p[k])]
            == level[x] + k && level[to[p[k]] as int] == level[x] + k + 1 by {
            if k > 0 {
                assert(p[k] == rest[k - 1]);
                if k == 1 {
                    assert(tail(to, rest[0]) == to[p[0]] as int);
                }
            }
        }
    }
}

/// Pushing along arcs that are neither `x` nor its partner leaves `x` as it was.
proof fn lemma_push_frame(cap: Seq<usize>, p: Seq<int>, a: int, x: int)
    requires
        0 <= x < cap.len(),
        forall|k: int| 0 <= k < p.len() ==> 0 <= #[trigger] p[k] < cap.len() && 0 <= partner(p[k]) < cap.len(),
        forall|k: int| 0 <= k < p.len() ==> #[trigger] p[k] != x && partner(p[k]) != x,
    ensures
        push_path(cap, p, a)[x] == cap[x],
        push_path(cap, p, a).len() == cap.len(),
    decreases p.len(),
{
    if p.len() > 0 {
        let rest = p.drop_first();
        assert forall|k: int| 0 <= k < rest.len() implies 0 <= #[trigger] rest[k] < cap.len() && 0 <= partner(rest[k]) < cap.len() by {
            assert(rest[k] == p[k + 1]);
        }
        assert forall|k: int| 0 <= k < rest.len() implies #[trigger] rest[k] != x && partner(rest[k]) != x by {
            assert(rest[k] == p[k + 1]);
        }
        lemma_push_frame(cap, rest, a, x);
        assert(p[0] != x && partner(p[0]) != x);
        assert(0 <= p[0] < cap.len() && 0 <= partner(p[0]) < cap.len());
    }
}

/// A path one level up from the head of `e`, led by `e` from its tail one level below, is a
/// path one level up from that tail; pushing along it pushes along the rest first and then
/// along `e`, which the rest leaves untouched.
proof fn lemma_extend_path(to: Seq<usize>, cap0: Seq<usize>, level: Seq<i32>, v: int, t: int, e: int, sub: Seq<int>, a: int)
    requires
        level_path(to, cap0, level, to[e] as int, t, sub, a),
        0 <= e < cap0.len(),
        0 <= partner(e) < cap0.len(),
        cap0.len() % 2 == 0,
        tail(to, e) == v,
        cap0[e] >= a,
        level[to[e] as int] == level[v] + 1,
    ensures
        level_path(to, cap0, level, v, t, seq![e] + sub, a),
        push_path(cap0, seq![e] + sub, a) == push_arc(push_path(cap0, sub, a), e, a),
        push_path(cap0, sub, a)[e] == cap0[e],
        push_path(cap0, sub, a).len() == cap0.len(),
{
    let nx = to[e] as int;
    lemma_level_path_levels(to, cap0, level, nx, t, sub, a);
    assert forall|k: int| 0 <= k < sub.len() implies 0 <= #[trigger] sub[k] < cap0.len() && 0 <= partner(sub[k]) < cap0.len() by {}
    assert forall|k: int| 0 <= k < sub.len() implies #[trigger] sub[k] != e && partner(sub[k]) != e by {
        if sub[k] == e {
            assert(level[tail(to, sub[k])] == level[nx] + k);
        }
        if partner(sub[k]) == e {
            assert(sub[k] == partner(e));
            assert(level[to[sub[k]] as int] == level[nx] + k + 1);
        }
    }
    lemma_push_frame(cap0, sub, a, e);
    let path = seq![e] + sub;
    assert(path.drop_first() =~= sub);
    assert(path[0] == e);
}

/// The residual capacities after pushing each amount of `fl` along its path, in turn.
pub open spec fn after_pushes(cap: Seq<usize>, fl: Seq<(Seq<int>, int)>) -> Seq<usize>
    decreases fl.len(),
{
    if fl.len() == 0 {
        cap
    } else {
        push_path(after_pushes(cap, fl.drop_last()), fl.last().0, fl.last().1)
    }
}

/// Whether each push of `fl` sends a positive amount along a path from `s` to `t` with enough
/// residual capacity at its turn.
pub open spec fn pushes_ok(to: Seq<usize>, cap: Seq<usize>, s: int, t: int, fl: Seq<(Seq<int>, int)>) -> bool {
    forall|k: int|
        0 <= k < fl.len() ==> #[trigger] fl[k].1 > 0 && arc_path(to, after_pushes(cap, fl.take(k)), s, t, fl[k].0, fl[k].1)
}

/// The sum of the amounts pushed.
pub open spec fn total(fl: Seq<(Seq<int>, int)>) -> int
    decreases fl.len(),
{
    if fl.len() == 0 {
        0
    } else {
        total(fl.drop_last()) + fl.last().1
    }
}

/// One more push of a positive amount along a path with enough residual capacity.
proof fn lemma_record_push(to: Seq<usize>, cap: Seq<usize>, s: int, t: int, fl: Seq<(Seq<int>, int)>, p: Seq<int>, a: int)
    requires
        pushes_ok(to, cap, s, t, fl),
        a > 0,
        arc_path(to, after_pushes(cap, fl), s, t, p, a),
    ensures
        pushes_ok(to, cap, s, t, fl.push((p, a))),
        after_pushes(cap, fl.push((p, a))) == push_path(after_pushes(cap, fl), p, a),
        total(fl.push((p, a))) == total(fl) + a,
{
    let nf = fl.push((p, a));
    assert(nf.drop_last() =~= fl);
    assert forall|k: int| 0 <= k < nf.len() implies #[trigger] nf[k].1 > 0 && arc_path(
        to,
        after_pushes(cap, nf.take(k)),
        s,
        t,
        nf[k].0,
        nf[k].1,
    ) by {
        if k < fl.len() {
            assert(nf.take(k) =~= fl.take(k));
            assert(nf[k] == fl[k]);
        } else {
            assert(nf.take(k) =~= fl);
        }
    }
}

/// Whether every arc with residual capacity that leaves a marked vertex leads to a marked one.
pub open spec fn reach_closed(to: Seq<usize>, cap: Seq<usize>, reach: Seq<bool>) -> bool {
    forall|e: int| 0 <= e < cap.len() && cap[e] > 0 && #[trigger] reach[tail(to, e)] ==> reach[to[e] as int]
}

/// Whether every marked vertex is reached from `s` by arcs with residual capacity.
pub open spec fn reach_sound(to: Seq<usize>, cap: Seq<usize>, s: int, reach: Seq<bool>) -> bool {
    forall|x: int| 0 <= x < reach.len() && #[trigger] reach[x] ==> exists|p: Seq<int>| #[trigger] arc_path(to, cap, s, x, p, 1)
}

/// Whether the first `k` arcs leaving `x` that have residual capacity lead to marked vertices.
pub open spec fn expanded(adj: Seq<Vec<usize>>, to: Seq<usize>, cap: Seq<usize>, seen: Seq<bool>, x: int, k: int) -> bool {
    forall|i: int| 0 <= i < k && cap[#[trigger] adj[x]@[i] as int] > 0 ==> seen[to[adj[x]@[i] as int] as int]
}

/// A path followed by one more arc leaving its end is a path.
proof fn lemma_arc_path_push(to: Seq<usize>, cap: Seq<usize>, x: int, y: int, p: Seq<int>, e: int, a: int)
    requires
        arc_path(to, cap, x, y, p, a),
        0 <= e < cap.len(),
        tail(to, e) == y,
        cap[e] >= a,
    ensures
        arc_path(to, cap, x, to[e] as int, p.push(e), a),
    decreases p.len(),
{
    if p.len() == 0 {
        assert(p.push(e).drop_first() =~= Seq::<int>::empty());
        assert(p.push(e)[0] == e);
        assert(arc_path(to, cap, to[e] as int, to[e] as int, Seq::<int>::empty(), a));
    } else {
        lemma_arc_path_push(to, cap, to[p[0]] as int, y, p.drop_first(), e, a);
        assert(p.push(e).drop_first() =~= p.drop_first().push(e));
        assert(p.push(e)[0] == p[0]);
    }
}

/// What a run of the bounded maximum flow gives: pushes `fl` of positive amounts along paths
/// from `s` to `t`, `value` in all, at most `limit`; `None` exactly when they reach `limit`
/// (not 0); otherwise the marks of the vertices that `s` reaches in what remains, which leave
/// out `t` unless `limit` is 0: no augmenting path is left, so (by the max-flow min-cut
/// theorem, not restated here) the flow is a maximum one and the marks the source side of the
/// minimum cut nearest to `s`.
pub open spec fn flow_outcome(
    to: Seq<usize>,
    cap: Seq<usize>,
    s: int,
    t: int,
    limit: int,
    value: int,
    fl: Seq<(Seq<int>, int)>,
    r: Option<Vec<bool>>,
) -> bool {
    &&& pushes_ok(to, cap, s, t, fl)
    &&& value == total(fl)
    &&& value <= limit
    &&& (r is None <==> (limit > 0 && value == limit))
    &&& r matches Some(reach) ==> reach@[s] && (limit > 0 ==> !reach@[t]) && reach_closed(
        to,
        after_pushes(cap, fl),
        reach@,
    ) && reach_sound(to, after_pushes(cap, fl), s, reach@)
}

/// Whether arc `e` is listed among the arcs leaving its tail.
pub open spec fn arc_listed(adj: Seq<Vec<usize>>, to: Seq<usize>, e: int) -> bool {
    exists|i: int| 0 <= i < adj[tail(to, e)]@.len() && #[trigger] adj[tail(to, e)]@[i] == e
}

/// The flow network: the head and residual capacity of every arc, the arcs leaving each vertex
/// in the order they were added, the BFS level of each vertex, and the next arc to try from it.
struct Dinic {
    to: Vec<usize>,
    cap: Vec<usize>,
    adj: Vec<Vec<usize>>,
    level: Vec<i32>,
    it: Vec<usize>,
}

impl Dinic {
    spec fn n(&self) -> int {
        self.adj@.len() as int
    }

    /// Arcs come in pairs whose capacities sum to at most `usize::MAX`, every arc id is valid
    /// and every head is a vertex.
    spec fn wf(&self) -> bool {
        &&& self.level@.len() == self.n()
        &&& self.it@.len() == self.n()
        &&& self.to@.len() == self.cap@.len()
        &&& self.cap@.len() % 2 == 0
        &&& self.n() < i32::MAX
        &&& forall|e: int| 0 <= e < self.to@.len() ==> #[trigger] self.to@[e] < self.n()
        &&& forall|v: int, i: int|
            0 <= v < self.n() && 0 <= i < self.adj@[v]@.len() ==> #[trigger] self.adj@[v]@[i]
                < self.cap@.len()
        &&& forall|v: int, i: int|
            0 <= v < self.n() && 0 <= i < self.adj@[v]@.len() ==> tail(self.to@, #[trigger] self.adj@[v]@[i] as int) == v
        &&& forall|e: int| 0 <= e < self.cap@.len() ==> #[trigger] arc_listed(self.adj@, self.to@, e)
        &&& forall|e: int|
            0 <= e < self.cap@.len() && e % 2 == 0 ==> #[trigger] self.cap@[e] + self.cap@[e + 1]
                <= usize::MAX
        &&& forall|v: int| 0 <= v < self.n() ==> -1 <= #[trigger] self.level@[v] <= self.n()
        &&& forall|v: int| 0 <= v < self.n() ==> #[trigger] self.it@[v] <= self.adj@[v]@.len()
    }

    fn new(n: usize) -> (r: Dinic)
        requires
            n < i32::MAX,
        ensures
            r.wf(),
            r.n() == n,
            r.cap@.len() == 0,
            r.to@.len() == 0,
    {
        let mut adj: Vec<Vec<usize>> = Vec::new();
        let mut level: Vec<i32> = Vec::new();
        let mut it: Vec<usize> = Vec::new();
        let mut i: usize = 0;
        while i < n
            invariant
                i <= n,
                adj@.len() == i,
                level@.len() == i,
                it@.len() == i,
                forall|v: int| 0 <= v < i ==> (#[trigger] adj@[v])@.len() == 0,
                forall|v: int| 0 <= v < i ==> #[trigger] level@[v] == 0,
                forall|v: int| 0 <= v < i ==> #[trigger] it@[v] == 0,
            decreases n - i,
        {
            adj.push(Vec::new());
            level.push(0);
            it.push(0);
            i = i + 1;
        }
        Dinic { to: Vec::new(), cap: Vec::new(), adj, level, it }
    }

    /// Adds an arc of capacity `cap` and its reverse of capacity 0.
    fn add_edge(&mut self, from: usize, to: usize, cap: usize)
        requires
            old(self).wf(),
            from < old(self).n(),
            to < old(self).n(),
            old(self).cap@.len() + 2 <= usize::MAX,
        ensures
            final(self).wf(),
            final(self).n() == old(self).n(),
            final(self).cap@.len() == old(self).cap@.len() + 2,
            final(self).cap@ == old(self).cap@.push(cap).push(0),
            final(self).to@ == old(self).to@.push(to).push(from),
    {
        let e = self.to.len();
        self.to.push(to);
        self.cap.push(cap);
        self.to.push(from);
        self.cap.push(0);
        let mut row = self.adj[from].clone();
        row.push(e);
        self.adj.set(from, row);
        let mut row2 = self.adj[to].clone();
        row2.push(e + 1);
        self.adj.set(to, row2);
        proof {
            assert forall|v: int, i: int|
                0 <= v < self.n() && 0 <= i < self.adj@[v]@.len() implies #[trigger] self.adj@[v]@[i]
                    < self.cap@.len() by {
                if v == from && i == old(self).adj@[v]@.len() {
                } else if v == to && i == self.adj@[v]@.len() - 1 {
                } else {
                    assert(self.adj@[v]@[i] == old(self).adj@[v]@[i]);
                }
            }
            assert forall|x: int|
                0 <= x < self.cap@.len() && x % 2 == 0 implies #[trigger] self.cap@[x] + self.cap@[x + 1]
                    <= usize::MAX by {
                if x < e {
                    assert(self.cap@[x] == old(self).cap@[x]);
                    assert(self.cap@[x + 1] == old(self).cap@[x + 1]);
                }
            }
            assert forall|v: int, i: int|
                0 <= v < self.n() && 0 <= i < self.adj@[v]@.len() implies tail(self.to@, #[trigger] self.adj@[v]@[i] as int) == v by {
                if v == from && i == old(self).adj@[v]@.len() {
                } else if v == to && i == self.adj@[v]@.len() - 1 {
                } else {
                    assert(self.adj@[v]@[i] == old(self).adj@[v]@[i]);
                    let x = old(self).adj@[v]@[i] as int;
                    assert(partner(x) < e);
                }
            }
            assert forall|x: int| 0 <= x < self.cap@.len() implies #[trigger] arc_listed(self.adj@, self.to@, x) by {
                if x == e {
                    assert(self.adj@[from as int]@[old(self).adj@[from as int]@.len() as int] == x);
                } else if x == e + 1 {
                    assert(self.adj@[to as int]@[self.adj@[to as int]@.len() - 1] == x);
                } else {
                    assert(partner(x) < e);
                    assert(tail(self.to@, x) == tail(old(self).to@, x));
                    let v = tail(old(self).to@, x);
                    assert(arc_listed(old(self).adj@, old(self).to@, x));
                    let i = choose|i: int| 0 <= i < old(self).adj@[v]@.len() && #[trigger] old(self).adj@[v]@[i] == x;
                    assert(self.adj@[v]@[i] == x);
                }
            }
        }
    }
}

/// Whether every arc with residual capacity that leaves a vertex with a level leads to a vertex
/// with a level.
pub open spec fn level_closed(to: Seq<usize>, cap: Seq<usize>, level: Seq<i32>) -> bool {
    forall|e: int| 0 <= e < cap.len() && cap[e] > 0 && #[trigger] level[tail(to, e)] >= 0 ==> level[to[e] as int] >= 0
}

/// Whether some arc with residual capacity enters `y` from a vertex one level below it.
pub open spec fn level_pred(to: Seq<usize>, cap: Seq<usize>, level: Seq<i32>, y: int) -> bool {
    exists|e: int| 0 <= e < cap.len() && #[trigger] to[e] == y && cap[e] > 0 && level[tail(to, e)] == level[y] - 1
}

/// Whether the first `k` arcs leaving `x` that have residual capacity lead to vertices with a
/// level.
pub open spec fn lexpanded(adj: Seq<Vec<usize>>, to: Seq<usize>, cap: Seq<usize>, level: Seq<i32>, x: int, k: int) -> bool {
    forall|i: int| 0 <= i < k && cap[#[trigger] adj[x]@[i] as int] > 0 ==> level[to[adj[x]@[i] as int] as int] >= 0
}

/// Vertices that keep their levels keep the arcs leaving `x` expanded.
proof fn lemma_lexpanded_grow(
    adj: Seq<Vec<usize>>,
    to: Seq<usize>,
    cap: Seq<usize>,
    before: Seq<i32>,
    after: Seq<i32>,
    x: int,
    m: int,
)
    requires
        lexpanded(adj, to, cap, before, x, m),
        m <= adj[x]@.len(),
        forall|i: int| 0 <= i < adj[x]@.len() ==> #[trigger] adj[x]@[i] < to.len(),
        forall|e: int| 0 <= e < to.len() ==> #[trigger] to[e] < before.len(),
        after.len() == before.len(),
        forall|y: int| 0 <= y < before.len() && #[trigger] before[y] >= 0 ==> after[y] >= 0,
    ensures
        lexpanded(adj, to, cap, after, x, m),
{
    assert forall|i: int| 0 <= i < m && cap[#[trigger] adj[x]@[i] as int] > 0 implies after[to[adj[x]@[i] as int] as int] >= 0 by {
        assert(before[to[adj[x]@[i] as int] as int] >= 0);
    }
}

/// Pushing along a path one level up from `y` leaves alone every arc whose tail lies below `y`,
/// and its partner.
proof fn lemma_below_untouched(to: Seq<usize>, cap0: Seq<usize>, level: Seq<i32>, y: int, t: int, p: Seq<int>, a: int, f: int)
    requires
        level_path(to, cap0, level, y, t, p, a),
        0 <= f < cap0.len(),
        cap0.len() % 2 == 0,
        level[tail(to, f)] < level[y],
    ensures
        push_path(cap0, p, a)[f] == cap0[f],
        push_path(cap0, p, a)[partner(f)] == cap0[partner(f)],
        push_path(cap0, p, a).len() == cap0.len(),
{
    lemma_level_path_levels(to, cap0, level, y, t, p, a);
    assert forall|k: int| 0 <= k < p.len() implies 0 <= #[trigger] p[k] < cap0.len() && 0 <= partner(p[k]) < cap0.len() by {}
    assert forall|k: int| 0 <= k < p.len() implies #[trigger] p[k] != f && partner(p[k]) != f by {
        if partner(p[k]) == f {
            assert(p[k] == partner(f));
            assert(to[p[k]] as int == tail(to, f));
        }
    }
    lemma_push_frame(cap0, p, a, f);
    assert forall|k: int| 0 <= k < p.len() implies #[trigger] p[k] != partner(f) && partner(p[k]) != partner(f) by {
        if p[k] == partner(f) {
            assert(to[p[k]] as int == tail(to, f));
        }
    }
    lemma_push_frame(cap0, p, a, partner(f));
}

/// Whether no path of arcs with residual capacity leads from `s` to `t`.
pub open spec fn cut_off(to: Seq<usize>, cap: Seq<usize>, s: int, t: int) -> bool {
    forall|p: Seq<int>| !#[trigger] arc_path(to, cap, s, t, p, 1)
}

/// A path of arcs with residual capacity from a vertex with a level, in a network where such
/// arcs never leave the vertices with a level, ends at a vertex with a level.
proof fn lemma_closed_path(to: Seq<usize>, cap: Seq<usize>, level: Seq<i32>, x: int, y: int, p: Seq<int>)
    requires
        level_closed(to, cap, level),
        arc_path(to, cap, x, y, p, 1),
        level[x] >= 0,
    ensures
        level[y] >= 0,
    decreases p.len(),
{
    if p.len() > 0 {
        assert(level[tail(to, p[0])] >= 0);
        lemma_closed_path(to, cap, level, to[p[0]] as int, y, p.drop_first());
    }
}

/// The vertices of a mark vector that are not marked.
pub open spec fn unmarked_of(marks: Seq<bool>) -> Set<int> {
    Set::new(|x: int| 0 <= x < marks.len() && !marks[x])
}

/// The vertices whose level is unset.
pub open spec fn unleveled(level: Seq<i32>) -> Set<int> {
    Set::new(|x: int| 0 <= x < level.len() && level[x] < 0)
}

proof fn lemma_range_subset_finite(s: Set<int>, n: int)
    requires
        n >= 0,
        forall|x: int| #[trigger] s.contains(x) ==> 0 <= x < n,
    ensures
        s.finite(),
        s.len() <= n,
{
    vstd::set_lib::lemma_int_range(0, n);
    assert(s.subset_of(vstd::set_lib::set_int_range(0, n)));
    vstd::set_lib::lemma_len_subset(s, vstd::set_lib::set_int_range(0, n));
}

impl Dinic {
    /// Labels every vertex with its distance from `s` over arcs with residual capacity (`-1`
    /// when unreachable); returns whether `t` got a label.
    #[verifier::spinoff_prover]
    #[verifier::rlimit(60)]
    fn bfs(&mut self, s: usize, t: usize) -> (r: bool)
        requires
            old(self).wf(),
            s < old(self).n(),
            t < old(self).n(),
        ensures
            final(self).wf(),
            final(self).n() == old(self).n(),
            final(self).to == old(self).to,
            final(self).cap == old(self).cap,
            final(self).adj == old(self).adj,
            final(self).level@[s as int] == 0,
            r == (final(self).level@[t as int] >= 0),
            level_closed(final(self).to@, final(self).cap@, final(self).level@),
            forall|y: int|
                0 <= y < final(self).n() && final(self).level@[y] > 0 ==> #[trigger] level_pred(
                    final(self).to@,
                    final(self).cap@,
                    final(self).level@,
                    y,
                ),
            forall|y: int| 0 <= y < final(self).n() && #[trigger] final(self).level@[y] == 0 ==> y == s,
    {
        let n = self.adj.len();
        let mut x: usize = 0;
        while x < n
            invariant
                self.wf(),
                n == self.n(),
                self.to == old(self).to,
                self.cap == old(self).cap,
                self.adj == old(self).adj,
                x <= n,
                forall|y: int| 0 <= y < x ==> #[trigger] self.level@[y] == -1,
            decreases n - x,
        {
            self.level.set(x, -1);
            x = x + 1;
        }
        self.level.set(s, 0);
        let mut q: Vec<usize> = Vec::new();
        q.push(s);
        let mut head: usize = 0;
        proof {
            lemma_range_subset_finite(unleveled(self.level@), n as int);
            assert(unleveled(self.level@) =~= vstd::set_lib::set_int_range(0, n as int).remove(s as int));
            vstd::set_lib::lemma_int_range(0, n as int);
            assert(q@[0] == s);
            assert forall|y: int| 0 <= y < n && #[trigger] self.level@[y] >= 0 implies q@.contains(y as usize) by {
                assert(y == s);
            }
        }
        while head < q.len()
            invariant
                self.wf(),
                n == self.n(),
                self.to == old(self).to,
                self.cap == old(self).cap,
                self.adj == old(self).adj,
                self.level@[s as int] == 0,
                s < n,
                head <= q@.len(),
                q@.len() + unleveled(self.level@).len() == n,
                unleveled(self.level@).finite(),
                forall|k: int| 0 <= k < q@.len() ==> #[trigger] q@[k] < n && self.level@[q@[k] as int] >= 0,
                forall|y: int| 0 <= y < n && self.level@[y] >= 0 ==> #[trigger] self.level@[y] < q@.len(),
                forall|y: int| 0 <= y < n && #[trigger] self.level@[y] >= 0 ==> q@.contains(y as usize),
                forall|j: int|
                    0 <= j < head ==> lexpanded(
                        self.adj@,
                        self.to@,
                        self.cap@,
                        self.level@,
                        #[trigger] q@[j] as int,
                        self.adj@[q@[j] as int]@.len() as int,
                    ),
                forall|y: int|
                    0 <= y < n && self.level@[y] > 0 ==> #[trigger] level_pred(self.to@, self.cap@, self.level@, y),
                forall|y: int| 0 <= y < n && #[trigger] self.level@[y] == 0 ==> y == s,
            decreases unleveled(self.level@).len(), q@.len() - head,
        {
            let v = q[head];
            head = head + 1;
            let ghost u0 = unleveled(self.level@).len();
            let ghost q0 = q@.len();
            let mut k: usize = 0;
            while k < self.adj[v].len()
                invariant
                    self.wf(),
                    n == self.n(),
                    self.to == old(self).to,
                    self.cap == old(self).cap,
                    self.adj == old(self).adj,
                    self.level@[s as int] == 0,
                    s < n,
                    v < n,
                    0 <= self.level@[v as int] < q0,
                    head <= q0 <= q@.len(),
                    q@.len() + unleveled(self.level@).len() == n,
                    unleveled(self.level@).finite(),
                    unleveled(self.level@).len() <= u0,
                    unleveled(self.level@).len() + q@.len() == u0 + q0,
                    forall|j: int| 0 <= j < q@.len() ==> #[trigger] q@[j] < n && self.level@[q@[j] as int] >= 0,
                    forall|y: int| 0 <= y < n && self.level@[y] >= 0 ==> #[trigger] self.level@[y] < q@.len(),
                    forall|y: int| 0 <= y < n && #[trigger] self.level@[y] >= 0 ==> q@.contains(y as usize),
                    head >= 1,
                    q@[head - 1] == v,
                    k <= self.adj@[v as int]@.len(),
                    lexpanded(self.adj@, self.to@, self.cap@, self.level@, v as int, k as int),
                    forall|j: int|
                        0 <= j < head - 1 ==> lexpanded(
                            self.adj@,
                            self.to@,
                            self.cap@,
                            self.level@,
                            #[trigger] q@[j] as int,
                            self.adj@[q@[j] as int]@.len() as int,
                        ),
                    forall|y: int|
                        0 <= y < n && self.level@[y] > 0 ==> #[trigger] level_pred(self.to@, self.cap@, self.level@, y),
                    forall|y: int| 0 <= y < n && #[trigger] self.level@[y] == 0 ==> y == s,
                decreases self.adj@[v as int]@.len() - k,
            {
                let e = self.adj[v][k];
                let to = self.to[e];
                if self.cap[e] > 0 && self.level[to] < 0 {
                    let ghost before = self.level@;
                    let ghost q_before = q@;
                    let lv = self.level[v] + 1;
                    self.level.set(to, lv);
                    q.push(to);
                    proof {
                        assert(self.level@ == before.update(to as int, lv));
                        assert(q@ == q_before.push(to));
                        assert(unleveled(self.level@) =~= unleveled(before).remove(to as int));
                        assert(q@[q@.len() - 1] == to);
                        assert forall|y: int| 0 <= y < n && #[trigger] self.level@[y] >= 0 implies q@.contains(y as usize) by {
                            if y != to {
                                assert(before[y] >= 0);
                                let j = choose|j: int| 0 <= j < q_before.len() && q_before[j] == y as usize;
                                assert(q@[j] == y as usize);
                            }
                        }
                        assert forall|y: int| 0 <= y < before.len() && #[trigger] before[y] >= 0 implies self.level@[y] >= 0 by {
                            assert(y != to);
                        }
                        assert forall|j: int|
                            0 <= j < head - 1 implies lexpanded(
                            self.adj@,
                            self.to@,
                            self.cap@,
                            self.level@,
                            #[trigger] q@[j] as int,
                            self.adj@[q@[j] as int]@.len() as int,
                        ) by {
                            assert(q@[j] == q_before[j]);
                            assert(lexpanded(self.adj@, self.to@, self.cap@, before, q_before[j] as int, self.adj@[q@[j] as int]@.len() as int));
                            lemma_lexpanded_grow(self.adj@, self.to@, self.cap@, before, self.level@, q@[j] as int, self.adj@[q@[j] as int]@.len() as int);
                        }
                        lemma_lexpanded_grow(self.adj@, self.to@, self.cap@, before, self.level@, v as int, k as int);
                        assert(q@[head - 1] == v);
                        assert(tail(self.to@, e as int) == v);
                        assert forall|y: int|
                            0 <= y < n && self.level@[y] > 0 implies #[trigger] level_pred(self.to@, self.cap@, self.level@, y) by {
                            if y == to {
                                assert(self.to@[e as int] == y);
                            } else {
                                assert(before[y] > 0);
                                assert(level_pred(self.to@, self.cap@, before, y));
                                let f = choose|f: int|
                                    0 <= f < self.cap@.len() && #[trigger] self.to@[f] == y && self.cap@[f] > 0
                                        && before[tail(self.to@, f)] == before[y] - 1;
                                assert(self.to@[f] == y);
                            }
                        }
                    }
                }
                k = k + 1;
            }
        }
        proof {
            assert forall|e: int|
                0 <= e < self.cap@.len() && self.cap@[e] > 0 && #[trigger] self.level@[tail(self.to@, e)] >= 0 implies self.level@[self.to@[e] as int] >= 0 by {
                let x = tail(self.to@, e);
                assert(0 <= x < n);
                assert(q@.contains(x as usize));
                let j = choose|j: int| 0 <= j < q@.len() && q@[j] == x as usize;
                assert(lexpanded(self.adj@, self.to@, self.cap@, self.level@, q@[j] as int, self.adj@[q@[j] as int]@.len() as int));
                assert(arc_listed(self.adj@, self.to@, e));
                let i = choose|i: int| 0 <= i < self.adj@[x]@.len() && #[trigger] self.adj@[x]@[i] == e;
            }
        }
        self.level[t] >= 0
    }

    /// Pushes up to `f` units of flow from `v` towards `t` along arcs that go one level up,
    /// resuming at the next untried arc of each vertex; returns the amount pushed.
    #[verifier::spinoff_prover]
    #[verifier::rlimit(40)]
    fn dfs(&mut self, v: usize, t: usize, f: usize) -> (r: usize)
        requires
            old(self).wf(),
            v < old(self).n(),
            t < old(self).n(),
            old(self).level@[v as int] >= 0,
        ensures
            final(self).wf(),
            final(self).n() == old(self).n(),
            final(self).to == old(self).to,
            final(self).adj == old(self).adj,
            final(self).level == old(self).level,
            final(self).cap@.len() == old(self).cap@.len(),
            forall|x: int| 0 <= x < final(self).n() ==> #[trigger] final(self).it@[x] >= old(self).it@[x],
            forall|x: int|
                0 <= x < final(self).n() && old(self).level@[x] < old(self).level@[v as int] ==> #[trigger] final(self).it@[x]
                    == old(self).it@[x],
            r <= f,
            v == t ==> r == f,
            r == 0 ==> final(self).cap == old(self).cap,
            r > 0 ==> exists|p: Seq<int>|
                level_path(old(self).to@, old(self).cap@, old(self).level@, v as int, t as int, p, r as int)
                    && final(self).cap@ == #[trigger] push_path(old(self).cap@, p, r as int),
        decreases old(self).n() - old(self).level@[v as int],
    {
        if v == t || f == 0 {
            proof {
                let p = Seq::<int>::empty();
                assert(level_path(self.to@, self.cap@, self.level@, v as int, t as int, p, f as int) || v != t);
                assert(push_path(self.cap@, p, f as int) == self.cap@);
            }
            return f;
        }
        while self.it[v] < self.adj[v].len()
            invariant
                self.wf(),
                v < self.n(),
                t < self.n(),
                self.n() == old(self).n(),
                self.to == old(self).to,
                self.adj == old(self).adj,
                self.level == old(self).level,
                self.cap == old(self).cap,
                self.level@[v as int] >= 0,
                f > 0,
                v != t,
                forall|x: int| 0 <= x < self.n() ==> #[trigger] self.it@[x] >= old(self).it@[x],
                forall|x: int|
                    0 <= x < self.n() && old(self).level@[x] < old(self).level@[v as int] ==> #[trigger] self.it@[x]
                        == old(self).it@[x],
            decreases self.adj@[v as int]@.len() - self.it@[v as int],
        {
            let i = self.it[v];
            let e = self.adj[v][i];
            let to = self.to[e];
            if self.cap[e] > 0 && self.level[v] + 1 == self.level[to] {
                let c = self.cap[e];
                let limit = if f < c {
                    f
                } else {
                    c
                };
                let ghost it_before = self.it@;
                let ghost cap0 = self.cap@;
                let ghost dinic0 = *self;
                let pushed = self.dfs(to, t, limit);
                proof {
                    assert(self.it@[v as int] == it_before[v as int]);
                }
                if pushed > 0 {
                    let ghost sub = choose|p: Seq<int>|
                        level_path(dinic0.to@, cap0, dinic0.level@, to as int, t as int, p, pushed as int)
                            && self.cap@ == #[trigger] push_path(cap0, p, pushed as int);
                    proof {
                        assert(tail(self.to@, e as int) == v);
                        lemma_extend_path(self.to@, cap0, self.level@, v as int, t as int, e as int, sub, pushed as int);
                    }
                    let p = if e % 2 == 0 {
                        e + 1
                    } else {
                        e - 1
                    };
                    let here = self.cap[e];
                    let moved = if pushed < here {
                        pushed
                    } else {
                        here
                    };
                    let ghost before = self.cap@;
                    self.cap.set(e, here - moved);
                    let there = self.cap[p];
                    proof {
                        if e % 2 == 0 {
                            assert(before[e as int] + before[e + 1] <= usize::MAX);
                        } else {
                            assert(before[e - 1] + before[e as int] <= usize::MAX);
                        }
                    }
                    self.cap.set(p, there + moved);
                    proof {
                        assert forall|x: int|
                            0 <= x < self.cap@.len() && x % 2 == 0 implies #[trigger] self.cap@[x] + self.cap@[x + 1]
                                <= usize::MAX by {
                            if x != e && x != p && x + 1 != e && x + 1 != p {
                                assert(self.cap@[x] == before[x] && self.cap@[x + 1] == before[x + 1]);
                            } else {
                                assert(before[x] + before[x + 1] <= usize::MAX);
                            }
                        }
                        assert(moved == pushed);
                        let path = seq![e as int] + sub;
                        assert(p as int == partner(e as int));
                        assert(self.cap@ =~= push_arc(push_path(cap0, sub, pushed as int), e as int, pushed as int));
                        assert(self.cap@ == push_path(old(self).cap@, path, pushed as int));
                    }
                    return pushed;
                }
            }
            let next = self.it[v] + 1;
            self.it.set(v, next);
        }
        0
    }

    /// Pushes one unit of flow along a shortest path from `s` to `t`, walking back from `t` one
    /// level at a time over arcs with residual capacity.
    #[verifier::spinoff_prover]
    #[verifier::rlimit(40)]
    fn push_unit(&mut self, s: usize, t: usize)
        requires
            old(self).wf(),
            s < old(self).n(),
            t < old(self).n(),
            old(self).level@[t as int] >= 0,
            forall|y: int|
                0 <= y < old(self).n() && old(self).level@[y] > 0 ==> #[trigger] level_pred(
                    old(self).to@,
                    old(self).cap@,
                    old(self).level@,
                    y,
                ),
            forall|y: int| 0 <= y < old(self).n() && #[trigger] old(self).level@[y] == 0 ==> y == s,
        ensures
            final(self).wf(),
            final(self).n() == old(self).n(),
            final(self).to == old(self).to,
            final(self).adj == old(self).adj,
            final(self).level == old(self).level,
            exists|p: Seq<int>|
                arc_path(old(self).to@, old(self).cap@, s as int, t as int, p, 1) && final(self).cap@
                    == #[trigger] push_path(old(self).cap@, p, 1),
    {
        let ghost cap0 = self.cap@;
        let ghost mut p: Seq<int> = Seq::empty();
        let mut y = t;
        while y != s
            invariant
                self.wf(),
                self.n() == old(self).n(),
                self.to == old(self).to,
                self.adj == old(self).adj,
                self.level == old(self).level,
                cap0 == old(self).cap@,
                cap0.len() == self.cap@.len(),
                s < self.n(),
                t < self.n(),
                y < self.n(),
                self.level@[y as int] >= 0,
                level_path(self.to@, cap0, self.level@, y as int, t as int, p, 1),
                self.cap@ == push_path(cap0, p, 1),
                forall|z: int|
                    0 <= z < self.n() && self.level@[z] > 0 ==> #[trigger] level_pred(self.to@, cap0, self.level@, z),
                forall|z: int| 0 <= z < self.n() && #[trigger] self.level@[z] == 0 ==> z == s,
            decreases self.level@[y as int],
        {
            let ly = self.level[y];
            proof {
                assert(ly > 0);
            }
            let m = self.cap.len();
            let mut e: usize = 0;
            let mut found: usize = m;
            while e < m && found == m
                invariant
                    self.wf(),
                    self.n() == old(self).n(),
                    y < self.n(),
                    ly == self.level@[y as int],
                    e <= m,
                    m == self.cap@.len(),
                    found == m || (found < m && self.to@[found as int] == y && self.cap@[found as int] > 0
                        && self.level@[tail(self.to@, found as int)] == ly - 1),
                    found == m ==> forall|f: int|
                        0 <= f < e ==> !(#[trigger] self.to@[f] == y && self.cap@[f] > 0 && self.level@[tail(
                            self.to@,
                            f,
                        )] == ly - 1),
                decreases m - e,
            {
                let pe = if e % 2 == 0 {
                    e + 1
                } else {
                    e - 1
                };
                let x = self.to[pe];
                if self.to[e] == y && self.cap[e] > 0 && self.level[x] == ly - 1 {
                    found = e;
                }
                e = e + 1;
            }
            proof {
                if found == m {
                    assert(level_pred(self.to@, cap0, self.level@, y as int));
                    let f = choose|f: int|
                        0 <= f < cap0.len() && #[trigger] self.to@[f] == y && cap0[f] > 0 && self.level@[tail(self.to@, f)]
                            == self.level@[y as int] - 1;
                    lemma_below_untouched(self.to@, cap0, self.level@, y as int, t as int, p, 1, f);
                    assert(self.to@[f] == y);
                    assert(false);
                }
            }
            let f = found;
            let pf = if f % 2 == 0 {
                f + 1
            } else {
                f - 1
            };
            let x = self.to[pf];
            proof {
                lemma_below_untouched(self.to@, cap0, self.level@, y as int, t as int, p, 1, f as int);
                lemma_extend_path(self.to@, cap0, self.level@, x as int, t as int, f as int, p, 1);
            }
            let ghost before = self.cap@;
            let here = self.cap[f];
            self.cap.set(f, here - 1);
            let there = self.cap[pf];
            proof {
                if f % 2 == 0 {
                    assert(before[f as int] + before[f + 1] <= usize::MAX);
                } else {
                    assert(before[f - 1] + before[f as int] <= usize::MAX);
                }
            }
            self.cap.set(pf, there + 1);
            proof {
                assert forall|z: int|
                    0 <= z < self.cap@.len() && z % 2 == 0 implies #[trigger] self.cap@[z] + self.cap@[z + 1] <= usize::MAX by {
                    if z != f && z != pf && z + 1 != f && z + 1 != pf {
                        assert(self.cap@[z] == before[z] && self.cap@[z + 1] == before[z + 1]);
                    } else {
                        assert(before[z] + before[z + 1] <= usize::MAX);
                    }
                }
                assert(pf as int == partner(f as int));
                assert(self.cap@ =~= push_arc(push_path(cap0, p, 1), f as int, 1));
                p = seq![f as int] + p;
            }
            y = x;
        }
        proof {
            lemma_level_path_levels(self.to@, cap0, self.level@, s as int, t as int, p, 1);
        }
    }

    /// Runs phases of Dinic's algorithm until the flow reaches `limit` (then `false`) or `t` is
    /// cut off from `s` (then `true`). A phase that finds no blocking flow, though `t` has a
    /// level, pushes one unit along a shortest path instead, so that each phase adds flow. The
    /// residual capacities end as pushes of flow along paths from `s` to `t` leave them, the
    /// amounts summing to at most `limit`; the result is `false` exactly when they sum to
    /// `limit` (and `limit` is not 0).
    #[verifier::spinoff_prover]
    #[verifier::rlimit(40)]
    fn max_flow(&mut self, s: usize, t: usize, limit: usize) -> (r: bool)
        requires
            old(self).wf(),
            s < old(self).n(),
            t < old(self).n(),
        ensures
            final(self).wf(),
            final(self).n() == old(self).n(),
            final(self).to == old(self).to,
            final(self).adj == old(self).adj,
            exists|fl: Seq<(Seq<int>, int)>|
                pushes_ok(old(self).to@, old(self).cap@, s as int, t as int, fl) && final(self).cap@
                    == #[trigger] after_pushes(old(self).cap@, fl) && total(fl) <= limit && (!r <==> (limit > 0
                    && total(fl) == limit)),
            r && limit > 0 ==> cut_off(old(self).to@, final(self).cap@, s as int, t as int),
    {
        let mut flow: usize = 0;
        let ghost cap0 = self.cap@;
        let ghost to0 = self.to@;
        let ghost mut fl: Seq<(Seq<int>, int)> = Seq::empty();
        proof {
            assert(self.cap@ == after_pushes(cap0, fl));
        }
        loop
            invariant
                self.wf(),
                self.n() == old(self).n(),
                s < self.n(),
                t < self.n(),
                flow <= limit,
                flow < limit || flow == 0,
                cap0 == old(self).cap@,
                to0 == old(self).to@,
                self.to == old(self).to,
                self.adj == old(self).adj,
                pushes_ok(to0, cap0, s as int, t as int, fl),
                self.cap@ == after_pushes(cap0, fl),
                total(fl) == flow,
            decreases limit - flow,
        {
            if flow >= limit {
                return true;
            }
            if !self.bfs(s, t) {
                proof {
                    assert forall|p: Seq<int>| !#[trigger] arc_path(self.to@, self.cap@, s as int, t as int, p, 1) by {
                        if arc_path(self.to@, self.cap@, s as int, t as int, p, 1) {
                            lemma_closed_path(self.to@, self.cap@, self.level@, s as int, t as int, p);
                        }
                    }
                }
                return true;
            }
            let ghost lv = self.level@;
            let ghost cb = self.cap@;
            let n = self.adj.len();
            let mut x: usize = 0;
            while x < n
                invariant
                    self.wf(),
                    n == self.n(),
                    self.n() == old(self).n(),
                    self.level@[s as int] == 0,
                    x <= n,
                    self.to == old(self).to,
                    self.adj == old(self).adj,
                    self.cap@ == after_pushes(cap0, fl),
                    self.level@ == lv,
                    self.cap@ == cb,
                decreases n - x,
            {
                self.it.set(x, 0);
                x = x + 1;
            }
            let start = flow;
            loop
                invariant
                    self.wf(),
                    self.n() == old(self).n(),
                    s < self.n(),
                    t < self.n(),
                    self.level@[s as int] == 0,
                    start <= flow < limit,
                    self.level@ == lv,
                    flow == start ==> self.cap@ == cb,
                    cap0 == old(self).cap@,
                    to0 == old(self).to@,
                    self.to == old(self).to,
                    self.adj == old(self).adj,
                    pushes_ok(to0, cap0, s as int, t as int, fl),
                    self.cap@ == after_pushes(cap0, fl),
                    total(fl) == flow,
                decreases limit - flow,
            {
                let ghost before = *self;
                let pushed = self.dfs(s, t, limit - flow);
                if pushed == 0 {
                    break;
                }
                proof {
                    let p = choose|p: Seq<int>|
                        level_path(before.to@, before.cap@, before.level@, s as int, t as int, p, pushed as int)
                            && self.cap@ == #[trigger] push_path(before.cap@, p, pushed as int);
                    lemma_level_path_levels(before.to@, before.cap@, before.level@, s as int, t as int, p, pushed as int);
                    lemma_record_push(to0, cap0, s as int, t as int, fl, p, pushed as int);
                    fl = fl.push((p, pushed as int));
                }
                flow = flow + pushed;
                if flow >= limit {
                    return false;
                }
            }
            if flow == start {
                let ghost before = *self;
                self.push_unit(s, t);
                proof {
                    let p = choose|p: Seq<int>|
                        arc_path(before.to@, before.cap@, s as int, t as int, p, 1) && self.cap@ == #[trigger] push_path(
                            before.cap@,
                            p,
                            1,
                        );
                    lemma_record_push(to0, cap0, s as int, t as int, fl, p, 1);
                    fl = fl.push((p, 1));
                }
                flow = flow + 1;
                if flow >= limit {
                    return false;
                }
            }
        }
    }

    /// The vertices that `s` reaches over arcs with residual capacity: every arc with residual
    /// capacity leads from a marked vertex to a marked one, and every marked vertex is reached.
    fn reachable_from(&self, s: usize) -> (r: Vec<bool>)
        requires
            self.wf(),
            s < self.n(),
        ensures
            r@.len() == self.n(),
            r@[s as int],
            reach_closed(self.to@, self.cap@, r@),
            reach_sound(self.to@, self.cap@, s as int, r@),
    {
        let n = self.adj.len();
        let mut seen: Vec<bool> = Vec::new();
        while seen.len() < n
            invariant
                seen@.len() <= n,
                forall|x: int| 0 <= x < seen@.len() ==> !#[trigger] seen@[x],
            decreases n - seen@.len(),
        {
            seen.push(false);
        }
        let mut stack: Vec<usize> = Vec::new();
        stack.push(s);
        seen.set(s, true);
        proof {
            lemma_range_subset_finite(unmarked_of(seen@), n as int);
            assert(arc_path(self.to@, self.cap@, s as int, s as int, Seq::empty(), 1));
            assert forall|x: int| 0 <= x < n && #[trigger] seen@[x] implies x == s by {}
            assert(stack@[0] == s);
            assert(stack@.contains(s));
        }
        while stack.len() > 0
            invariant
                self.wf(),
                n == self.n(),
                s < n,
                seen@.len() == n,
                seen@[s as int],
                forall|k: int| 0 <= k < stack@.len() ==> #[trigger] stack@[k] < n && seen@[stack@[k] as int],
                stack@.no_duplicates(),
                unmarked_of(seen@).finite(),
                reach_sound(self.to@, self.cap@, s as int, seen@),
                forall|x: int|
                    0 <= x < n && #[trigger] seen@[x] && !stack@.contains(x as usize) ==> expanded(
                        self.adj@,
                        self.to@,
                        self.cap@,
                        seen@,
                        x,
                        self.adj@[x]@.len() as int,
                    ),
            decreases unmarked_of(seen@).len(), stack@.len(),
        {
            let ghost u0 = unmarked_of(seen@).len();
            let ghost len0 = stack@.len();
            let ghost stack0 = stack@;
            let v = stack.pop().unwrap();
            proof {
                assert(stack0 =~= stack@.push(v));
                assert(!stack@.contains(v)) by {
                    if stack@.contains(v) {
                        let j = choose|j: int| 0 <= j < stack@.len() && stack@[j] == v;
                        assert(stack0[j] == stack0[stack0.len() - 1]);
                    }
                }
                assert(seen@[v as int]) by {
                    assert(stack0[stack0.len() - 1] == v);
                }
            }
            let mut k: usize = 0;
            while k < self.adj[v].len()
                invariant
                    self.wf(),
                    n == self.n(),
                    s < n,
                    v < n,
                    seen@.len() == n,
                    seen@[s as int],
                    seen@[v as int],
                    !stack@.contains(v),
                    forall|j: int| 0 <= j < stack@.len() ==> #[trigger] stack@[j] < n && seen@[stack@[j] as int],
                    stack@.no_duplicates(),
                    unmarked_of(seen@).finite(),
                    unmarked_of(seen@).len() <= u0,
                    unmarked_of(seen@).len() + stack@.len() + 1 <= u0 + len0,
                    unmarked_of(seen@).len() == u0 ==> stack@.len() + 1 == len0,
                    reach_sound(self.to@, self.cap@, s as int, seen@),
                    k <= self.adj@[v as int]@.len(),
                    expanded(self.adj@, self.to@, self.cap@, seen@, v as int, k as int),
                    forall|x: int|
                        0 <= x < n && #[trigger] seen@[x] && !stack@.contains(x as usize) && x != v ==> expanded(
                            self.adj@,
                            self.to@,
                            self.cap@,
                            seen@,
                            x,
                            self.adj@[x]@.len() as int,
                        ),
                decreases self.adj@[v as int]@.len() - k,
            {
                let e = self.adj[v][k];
                let to = self.to[e];
                if self.cap[e] > 0 && !seen[to] {
                    let ghost before = seen@;
                    let ghost stack_before = stack@;
                    seen.set(to, true);
                    proof {
                        assert(unmarked_of(seen@) =~= unmarked_of(before).remove(to as int));
                        let pv = choose|p: Seq<int>| #[trigger] arc_path(self.to@, self.cap@, s as int, v as int, p, 1);
                        lemma_arc_path_push(self.to@, self.cap@, s as int, v as int, pv, e as int, 1);
                        assert forall|x: int| 0 <= x < n && #[trigger] seen@[x] implies exists|p: Seq<int>|
                            #[trigger] arc_path(self.to@, self.cap@, s as int, x, p, 1) by {
                            if x != to {
                                assert(before[x]);
                            } else {
                                assert(arc_path(self.to@, self.cap@, s as int, x, pv.push(e as int), 1));
                            }
                        }
                    }
                    stack.push(to);
                    proof {
                        assert(!stack_before.contains(to)) by {
                            if stack_before.contains(to) {
                                let j = choose|j: int| 0 <= j < stack_before.len() && stack_before[j] == to;
                            }
                        }
                        assert forall|a1: int, b1: int| 0 <= a1 < stack@.len() && 0 <= b1 < stack@.len() && a1 != b1 implies stack@[a1] != stack@[b1] by {
                            if a1 < stack_before.len() && b1 < stack_before.len() {
                                assert(stack@[a1] == stack_before[a1] && stack@[b1] == stack_before[b1]);
                            } else if a1 < stack_before.len() {
                                assert(stack@[a1] == stack_before[a1]);
                            } else {
                                assert(stack@[b1] == stack_before[b1]);
                            }
                        }
                        assert(stack@[stack@.len() - 1] == to);
                        assert forall|x: int|
                            0 <= x < n && #[trigger] seen@[x] && !stack@.contains(x as usize) && x != v implies expanded(
                                self.adj@,
                                self.to@,
                                self.cap@,
                                seen@,
                                x,
                                self.adj@[x]@.len() as int,
                            ) by {
                            assert(x != to);
                            assert(before[x]);
                            if stack_before.contains(x as usize) {
                                let j = choose|j: int| 0 <= j < stack_before.len() && stack_before[j] == x as usize;
                                assert(stack@[j] == x as usize);
                            }
                        }
                    }
                }
                k = k + 1;
            }
        }
        proof {
            assert forall|e: int|
                0 <= e < self.cap@.len() && self.cap@[e] > 0 && #[trigger] seen@[tail(self.to@, e)] implies seen@[self.to@[e] as int] by {
                assert(arc_listed(self.adj@, self.to@, e));
                let x = tail(self.to@, e);
                let i = choose|i: int| 0 <= i < self.adj@[x]@.len() && #[trigger] self.adj@[x]@[i] == e;
                assert(0 <= x < n);
                assert(!stack@.contains(x as usize));
                assert(expanded(self.adj@, self.to@, self.cap@, seen@, x, self.adj@[x]@.len() as int));
            }
        }
        seen
    }
}

/// The number of arcs given: as far as both the arcs and their capacities go.
pub open spec fn arc_count(edges: Seq<(usize, usize)>, capacities: Seq<usize>) -> int {
    if edges.len() < capacities.len() {
        edges.len() as int
    } else {
        capacities.len() as int
    }
}

/// The heads of the first `m` given arcs and of their reverses, interleaved.
pub open spec fn init_heads(edges: Seq<(usize, usize)>, m: int) -> Seq<usize> {
    Seq::new((2 * m) as nat, |e: int| if e % 2 == 0 { edges[e / 2].1 } else { edges[e / 2].0 })
}

/// The capacities of the first `m` given arcs, each followed by 0 for its reverse.
pub open spec fn init_caps(capacities: Seq<usize>, m: int) -> Seq<usize> {
    Seq::new((2 * m) as nat, |e: int| if e % 2 == 0 { capacities[e / 2] } else { 0 })
}

/// Computes a flow from `s` to `t` in the network with the given arcs and capacities (pairs of
/// them, as far as both lists go), stopping once the flow reaches `limit`. Returns `None` when
/// it does; otherwise the vertices the source reaches in the residual network, as marks over
/// `0..n`. The flow is a sequence of pushes along paths from `s` to `t`.
pub fn max_flow_reachable(
    n: usize,
    edges: &[(usize, usize)],
    capacities: &[usize],
    s: usize,
    t: usize,
    limit: usize,
) -> (r: Option<Vec<bool>>)
    requires
        n < i32::MAX,
        s < n,
        t < n,
        forall|k: int| 0 <= k < edges@.len() ==> #[trigger] edges@[k].0 < n && edges@[k].1 < n,
        2 * edges@.len() + 2 <= usize::MAX,
    ensures
        r matches Some(reach) ==> reach@.len() == n && reach@[s as int],
        limit > 0 ==> (r matches Some(reach) ==> !reach@[t as int]),
        exists|fl: Seq<(Seq<int>, int)>|
            flow_outcome(
                init_heads(edges@, arc_count(edges@, capacities@)),
                init_caps(capacities@, arc_count(edges@, capacities@)),
                s as int,
                t as int,
                limit as int,
                #[trigger] total(fl),
                fl,
                r,
            ),
{
    let mut dinic = Dinic::new(n);
    let mut k: usize = 0;
    proof {
        assert(dinic.to@ =~= init_heads(edges@, 0));
        assert(dinic.cap@ =~= init_caps(capacities@, 0));
    }
    while k < edges.len() && k < capacities.len()
        invariant
            dinic.wf(),
            dinic.n() == n,
            k <= edges@.len(),
            k <= capacities@.len(),
            dinic.cap@.len() == 2 * k,
            dinic.to@ == init_heads(edges@, k as int),
            dinic.cap@ == init_caps(capacities@, k as int),
            forall|j: int| 0 <= j < edges@.len() ==> #[trigger] edges@[j].0 < n && edges@[j].1 < n,
            2 * edges@.len() + 2 <= usize::MAX,
        decreases edges@.len() - k,
    {
        let (u, v) = edges[k];
        dinic.add_edge(u, v, capacities[k]);
        k = k + 1;
        proof {
            assert(dinic.to@ =~= init_heads(edges@, k as int));
            assert(dinic.cap@ =~= init_caps(capacities@, k as int));
        }
    }
    proof {
        assert(k == arc_count(edges@, capacities@));
    }
    let ghost d0 = dinic;
    let done = dinic.max_flow(s, t, limit);
    let ghost fl = choose|fl: Seq<(Seq<int>, int)>|
        pushes_ok(d0.to@, d0.cap@, s as int, t as int, fl) && dinic.cap@ == #[trigger] after_pushes(d0.cap@, fl)
            && total(fl) <= limit && (!done <==> (limit > 0 && total(fl) == limit));
    if !done {
        proof {
            assert(flow_outcome(d0.to@, d0.cap@, s as int, t as int, limit as int, total(fl), fl, None));
        }
        return None;
    }
    let reach = dinic.reachable_from(s);
    proof {
        if limit > 0 && reach@[t as int] {
            let p = choose|p: Seq<int>| #[trigger] arc_path(dinic.to@, dinic.cap@, s as int, t as int, p, 1);
            assert(!arc_path(d0.to@, dinic.cap@, s as int, t as int, p, 1));
        }
        assert(flow_outcome(d0.to@, d0.cap@, s as int, t as int, limit as int, total(fl), fl, Some(reach)));
    }
    Some(reach)
}

} // verus!
