//! Topological ordering with Kahn's algorithm and a deterministic
//! smallest-index-first tie-break, together with cycle detection.

use crate::graph::{
    lemma_contains_push, lemma_occurrences_contains, lemma_occurrences_push, occurrences,
    strictly_increasing, DiGraph,
};
use vstd::prelude::*;
use vstd::seq_lib::seq_to_set_is_finite;
use vstd::set_lib::{lemma_int_range, lemma_len_subset, lemma_subset_equality, set_int_range};

verus! {

/// Number of entries of `s` that are not contained in `done`: the still-open
/// occurrences of a node's predecessor list.
pub open spec fn count_open(s: Seq<usize>, done: Seq<usize>) -> nat
    decreases s.len(),
{
    if s.len() == 0 {
        0
    } else {
        count_open(s.drop_last(), done) + if done.contains(s.last()) {
            0nat
        } else {
            1nat
        }
    }
}

/// With nothing done yet, every entry is open.
pub proof fn lemma_count_open_empty(s: Seq<usize>)
    ensures
        count_open(s, Seq::<usize>::empty()) == s.len(),
    decreases s.len(),
{
    if s.len() > 0 {
        lemma_count_open_empty(s.drop_last());
    }
}

/// Marking `u` done closes exactly the occurrences of `u`.
pub proof fn lemma_count_open_mark(s: Seq<usize>, done: Seq<usize>, u: usize)
    requires
        !done.contains(u),
    ensures
        count_open(s, done.push(u)) + occurrences(s, u) == count_open(s, done),
    decreases s.len(),
{
    if s.len() > 0 {
        lemma_count_open_mark(s.drop_last(), done, u);
        lemma_contains_push(done, u, s.last());
    }
}

/// No entry is open exactly when every entry is done.
pub proof fn lemma_count_open_zero(s: Seq<usize>, done: Seq<usize>)
    ensures
        count_open(s, done) == 0 <==> (forall|i: int|
            0 <= i < s.len() ==> done.contains(#[trigger] s[i])),
    decreases s.len(),
{
    if s.len() > 0 {
        lemma_count_open_zero(s.drop_last(), done);
        if count_open(s, done) == 0 {
            assert forall|i: int| 0 <= i < s.len() implies done.contains(#[trigger] s[i]) by {
                if i < s.len() - 1 {
                    assert(s.drop_last()[i] == s[i]);
                }
            }
        }
        if forall|i: int| 0 <= i < s.len() ==> done.contains(#[trigger] s[i]) {
            assert forall|i: int| 0 <= i < s.drop_last().len() implies done.contains(
                #[trigger] s.drop_last()[i],
            ) by {
                assert(s.drop_last()[i] == s[i]);
            }
        }
    }
}

/// Occurrences of an undone node are all open.
pub proof fn lemma_count_open_ge_occurrences(s: Seq<usize>, done: Seq<usize>, u: usize)
    requires
        !done.contains(u),
    ensures
        count_open(s, done) >= occurrences(s, u),
    decreases s.len(),
{
    if s.len() > 0 {
        lemma_count_open_ge_occurrences(s.drop_last(), done, u);
    }
}

pub proof fn lemma_occurrences_take_step(s: Seq<usize>, j: int, x: usize)
    requires
        0 <= j < s.len(),
    ensures
        occurrences(s.take(j + 1), x) == occurrences(s.take(j), x) + if s[j] == x {
            1nat
        } else {
            0nat
        },
{
    assert(s.take(j + 1) =~= s.take(j).push(s[j]));
    lemma_occurrences_push(s.take(j), s[j], x);
}

pub proof fn lemma_occurrences_take_le(s: Seq<usize>, j: int, x: usize)
    requires
        0 <= j <= s.len(),
    ensures
        occurrences(s.take(j), x) <= occurrences(s, x),
    decreases s.len() - j,
{
    if j == s.len() {
        assert(s.take(j) =~= s);
    } else {
        lemma_occurrences_take_step(s, j, x);
        lemma_occurrences_take_le(s, j + 1, x);
    }
}

/// A sequence of distinct indices below `n` has at most `n` entries; one of
/// full length holds every index, and a shorter one misses some index.
pub proof fn lemma_bounded_distinct_len(s: Seq<usize>, n: nat)
    requires
        s.no_duplicates(),
        forall|i: int| 0 <= i < s.len() ==> (#[trigger] s[i]) < n,
    ensures
        s.len() <= n,
        s.len() == n ==> forall|v: usize| v < n ==> s.contains(v),
        s.len() < n && n <= usize::MAX ==> exists|v: usize| v < n && !s.contains(v),
{
    broadcast use seq_to_set_is_finite;

    let t = s.map_values(|x: usize| x as int);
    assert forall|i: int, j: int|
        (0 <= i < t.len() && 0 <= j < t.len() && i != j) implies t[i] != t[j] by {
        assert(s[i] != s[j]);
    }
    t.unique_seq_to_set();
    let range = set_int_range(0, n as int);
    lemma_int_range(0, n as int);
    assert forall|x: int| t.to_set().contains(x) implies range.contains(x) by {
        let i = choose|i: int| 0 <= i < t.len() && t[i] == x;
        assert(s[i] < n);
    }
    lemma_len_subset(t.to_set(), range);
    if s.len() == n {
        lemma_subset_equality(t.to_set(), range);
        assert forall|v: usize| v < n implies s.contains(v) by {
            assert(range.contains(v as int));
            assert(t.to_set().contains(v as int));
            let i = choose|i: int| 0 <= i < t.len() && t[i] == v as int;
            assert(s[i] == v);
        }
    }
    if s.len() < n && n <= usize::MAX {
        if forall|x: int| range.contains(x) ==> t.to_set().contains(x) {
            lemma_len_subset(range, t.to_set());
            assert(false);
        }
        let x = choose|x: int| range.contains(x) && !t.to_set().contains(x);
        let v = x as usize;
        assert(!s.contains(v)) by {
            if s.contains(v) {
                let i = choose|i: int| 0 <= i < s.len() && s[i] == v;
                assert(t[i] == x);
                assert(t.contains(x));
            }
        }
        assert(v < n && !s.contains(v));
    }
}

/// Every predecessor of `v` is already done: `v` is ready to be emitted.
pub open spec fn ready(g: &DiGraph, done: Seq<usize>, v: usize) -> bool {
    forall|i: int|
        0 <= i < g.preds()[v as int].len() ==> done.contains(#[trigger] g.preds()[v as int][i])
}

/// `v` is the smallest not-yet-emitted ready node: the mandatory tie-break
/// of the sorter.
pub open spec fn is_min_ready(g: &DiGraph, done: Seq<usize>, v: usize) -> bool {
    &&& v < g.node_count()
    &&& !done.contains(v)
    &&& ready(g, done, v)
    &&& forall|w: usize|
        w < g.node_count() && !done.contains(w) && #[trigger] ready(g, done, w) ==> v <= w
}

/// `order` is the run of Kahn's algorithm with smallest-index tie-break:
/// it covers all nodes, and each entry is the smallest node whose
/// predecessors all precede it.
pub open spec fn is_kahn_order(g: &DiGraph, order: Seq<usize>) -> bool {
    &&& order.len() == g.node_count()
    &&& forall|i: int| 0 <= i < order.len() ==> is_min_ready(g, order.take(i), #[trigger] order[i])
}

/// `p` walks along edges of `g` and returns to its starting node.
pub open spec fn is_cycle(g: &DiGraph, p: Seq<usize>) -> bool {
    &&& p.len() >= 2
    &&& p[0] == p[p.len() - 1]
    &&& forall|i: int| 0 <= i < p.len() - 1 ==> #[trigger] g.edge(p[i], p[i + 1])
}

/// The graph contains a directed cycle (a self-loop is a cycle of length
/// one, walked as a two-entry sequence).
pub open spec fn has_cycle(g: &DiGraph) -> bool {
    exists|p: Seq<usize>| #[trigger] is_cycle(g, p)
}

/// Some not-yet-done node has an edge into `v` from a not-yet-done node.
pub open spec fn has_open_pred(g: &DiGraph, done: Seq<usize>, v: usize) -> bool {
    exists|u: usize| u < g.node_count() && !done.contains(u) && #[trigger] g.edge(u, v)
}

/// First index of `v` in `order`.
pub open spec fn position_of(order: Seq<usize>, v: usize) -> int {
    choose|i: int| 0 <= i < order.len() && order[i] == v
}

pub proof fn lemma_position_of(order: Seq<usize>, v: usize)
    requires
        order.contains(v),
    ensures
        0 <= position_of(order, v) < order.len(),
        order[position_of(order, v)] == v,
{
}

/// A Kahn order lists each node exactly once.
pub proof fn lemma_kahn_order_distinct(g: &DiGraph, order: Seq<usize>)
    requires
        is_kahn_order(g, order),
    ensures
        order.no_duplicates(),
        forall|i: int| 0 <= i < order.len() ==> (#[trigger] order[i]) < g.node_count(),
        forall|v: usize| v < g.node_count() ==> order.contains(v),
{
    assert forall|i: int, j: int|
        (0 <= i < order.len() && 0 <= j < order.len() && i != j) implies order[i] != order[j] by {
        let (a, b) = if i < j {
            (i, j)
        } else {
            (j, i)
        };
        assert(is_min_ready(g, order.take(b), order[b]));
        assert(order.take(b)[a] == order[a]);
        assert(order.take(b).contains(order[a]));
    }
    assert forall|i: int| 0 <= i < order.len() implies (#[trigger] order[i]) < g.node_count() by {
        assert(is_min_ready(g, order.take(i), order[i]));
    }
    lemma_bounded_distinct_len(order, g.node_count());
}

/// Every edge of a well-formed graph goes forward in a Kahn order: the
/// source's position precedes the target's.
pub proof fn lemma_kahn_order_respects_edges(g: &DiGraph, order: Seq<usize>)
    requires
        g.wf(),
        is_kahn_order(g, order),
    ensures
        order.no_duplicates(),
        forall|v: usize| v < g.node_count() ==> order.contains(v),
        forall|u: usize, v: usize| #[trigger]
            g.edge(u, v) ==> position_of(order, u) < position_of(order, v),
{
    lemma_kahn_order_distinct(g, order);
    assert forall|u: usize, v: usize| #[trigger] g.edge(u, v) implies position_of(order, u)
        < position_of(order, v) by {
        lemma_position_of(order, u);
        lemma_position_of(order, v);
        let j = position_of(order, v);
        assert(is_min_ready(g, order.take(j), order[j]));
        lemma_occurrences_contains(g.succs()[u as int], v);
        assert(occurrences(g.preds()[v as int], u) > 0);
        lemma_occurrences_contains(g.preds()[v as int], u);
        let i = choose|i: int| 0 <= i < g.preds()[v as int].len() && g.preds()[v as int][i] == u;
        assert(order.take(j).contains(g.preds()[v as int][i]));
        let k = choose|k: int| 0 <= k < order.take(j).len() && order.take(j)[k] == u;
        assert(order[k] == u);
        assert(position_of(order, u) == k) by {
            let k2 = position_of(order, u);
            if k2 != k {
                assert(order[k2] == order[k]);
            }
        }
    }
}

proof fn lemma_cycle_climb(g: &DiGraph, order: Seq<usize>, p: Seq<usize>, k: int)
    requires
        g.wf(),
        is_kahn_order(g, order),
        forall|i: int| 0 <= i < p.len() - 1 ==> #[trigger] g.edge(p[i], p[i + 1]),
        1 <= k < p.len(),
    ensures
        position_of(order, p[0]) < position_of(order, p[k]),
    decreases k,
{
    lemma_kahn_order_respects_edges(g, order);
    let i = k - 1;
    assert(g.edge(p[i], p[i + 1]));
    if k > 1 {
        lemma_cycle_climb(g, order, p, k - 1);
    }
}

/// A graph that admits a Kahn order has no cycle.
pub proof fn lemma_kahn_no_cycle(g: &DiGraph, order: Seq<usize>)
    requires
        g.wf(),
        is_kahn_order(g, order),
    ensures
        !has_cycle(g),
{
    if has_cycle(g) {
        let p = choose|p: Seq<usize>| is_cycle(g, p);
        lemma_cycle_climb(g, order, p, p.len() - 1);
        assert(false);
    }
}

/// Walk backwards along open predecessors: from a blocked node a walk of any
/// requested length exists, every step following an edge in reverse.
proof fn lemma_build_walk(g: &DiGraph, done: Seq<usize>, start: usize, k: nat) -> (w: Seq<usize>)
    requires
        g.wf(),
        start < g.node_count(),
        !done.contains(start),
        forall|v: usize|
            v < g.node_count() && !done.contains(v) ==> #[trigger] has_open_pred(g, done, v),
    ensures
        w.len() == k + 1,
        w[0] == start,
        forall|i: int|
            0 <= i < w.len() ==> (#[trigger] w[i]) < g.node_count() && !done.contains(w[i]),
        forall|i: int| 0 <= i < w.len() - 1 ==> g.edge(w[i + 1], #[trigger] w[i]),
    decreases k,
{
    if k == 0 {
        seq![start]
    } else {
        let prev = lemma_build_walk(g, done, start, (k - 1) as nat);
        let tail = prev[k as int - 1];
        assert(has_open_pred(g, done, tail));
        let u = choose|u: usize| u < g.node_count() && !done.contains(u) && #[trigger] g.edge(u, tail);
        let w = prev.push(u);
        assert forall|i: int| 0 <= i < w.len() - 1 implies g.edge(w[i + 1], #[trigger] w[i]) by {
            if i < prev.len() - 1 {
                assert(g.edge(prev[i + 1], prev[i]));
            }
        }
        w
    }
}

/// If some node is unfinished and every unfinished node has an unfinished
/// predecessor, the graph contains a cycle.
pub proof fn lemma_stuck_has_cycle(g: &DiGraph, done: Seq<usize>)
    requires
        g.wf(),
        exists|v: usize| v < g.node_count() && !done.contains(v),
        forall|v: usize|
            v < g.node_count() && !done.contains(v) ==> #[trigger] has_open_pred(g, done, v),
    ensures
        has_cycle(g),
{
    let v0 = choose|v: usize| v < g.node_count() && !done.contains(v);
    let n = g.node_count();
    let w = lemma_build_walk(g, done, v0, n);
    if w.no_duplicates() {
        lemma_bounded_distinct_len(w, n);
        assert(false);
    }
    let (i0, j0) = choose|i: int, j: int|
        0 <= i < w.len() && 0 <= j < w.len() && i != j && w[i] == w[j];
    let (i, j) = if i0 < j0 {
        (i0, j0)
    } else {
        (j0, i0)
    };
    let p = w.subrange(i, j + 1).reverse();
    assert(p.len() == j + 1 - i);
    assert forall|k: int| 0 <= k < p.len() implies p[k] == w[j - k] by {
        assert(p[k] == w.subrange(i, j + 1)[p.len() - 1 - k]);
    }
    assert(p[0] == p[p.len() - 1]);
    assert forall|k: int| 0 <= k < p.len() - 1 implies #[trigger] g.edge(p[k], p[k + 1]) by {
        let m = j - k - 1;
        assert(g.edge(w[m + 1], w[m]));
    }
    assert(is_cycle(g, p));
}

/// Two Kahn orders of the same graph agree entry by entry: the tie-break
/// makes the output of the sorter unique, hence deterministic.
pub proof fn lemma_kahn_order_unique(g: &DiGraph, o1: Seq<usize>, o2: Seq<usize>)
    requires
        is_kahn_order(g, o1),
        is_kahn_order(g, o2),
    ensures
        o1 == o2,
{
    lemma_kahn_prefixes_agree(g, o1, o2, o1.len() as int);
    assert(o1.take(o1.len() as int) =~= o1);
    assert(o2.take(o2.len() as int) =~= o2);
    assert(o1 =~= o2);
}

pub proof fn lemma_insert_contains(q: Seq<usize>, pos: int, x: usize, y: usize)
    requires
        0 <= pos <= q.len(),
    ensures
        q.insert(pos, x).contains(y) <==> q.contains(y) || y == x,
{
    q.insert_ensures(pos, x);
    let q1 = q.insert(pos, x);
    assert(q1[pos] == x);
    if q.contains(y) {
        let i = choose|i: int| 0 <= i < q.len() && q[i] == y;
        if i < pos {
            assert(q1[i] == y);
        } else {
            assert(q1[i + 1] == y);
        }
    }
    if q1.contains(y) && y != x {
        let i = choose|i: int| 0 <= i < q1.len() && q1[i] == y;
        if i < pos {
            assert(q[i] == y);
        } else if i > pos {
            assert(q1[(i - 1) + 1] == q[i - 1]);
            assert(q[i - 1] == y);
        }
        assert(q.contains(y));
    }
}

proof fn lemma_kahn_prefixes_agree(g: &DiGraph, o1: Seq<usize>, o2: Seq<usize>, k: int)
    requires
        is_kahn_order(g, o1),
        is_kahn_order(g, o2),
        0 <= k <= o1.len(),
    ensures
        o1.take(k) == o2.take(k),
    decreases k,
{
    if k > 0 {
        lemma_kahn_prefixes_agree(g, o1, o2, k - 1);
        assert(is_min_ready(g, o1.take(k - 1), o1[k - 1]));
        assert(is_min_ready(g, o2.take(k - 1), o2[k - 1]));
        let m1 = o1[k - 1];
        let m2 = o2[k - 1];
        assert(ready(g, o1.take(k - 1), m2)) by {
            assert(ready(g, o2.take(k - 1), m2));
        }
        assert(ready(g, o2.take(k - 1), m1)) by {
            assert(ready(g, o1.take(k - 1), m1));
        }
        assert(m1 <= m2 && m2 <= m1);
        assert(o1.take(k) =~= o2.take(k));
    } else {
        assert(o1.take(0) =~= o2.take(0));
    }
}

/// Kahn's algorithm with the mandatory smallest-index tie-break: repeatedly
/// emit the smallest ready node. Returns the unique tie-break-respecting
/// topological order of all node indices, or `None` exactly when the graph
/// contains a cycle.
pub fn topological_sort(g: &DiGraph) -> (r: Option<Vec<usize>>)
    requires
        g.wf(),
    ensures
        match r {
            Some(order) => is_kahn_order(g, order@) && !has_cycle(g),
            None => has_cycle(g),
        },
{
    let n = g.len();

    let mut in_deg: Vec<usize> = Vec::new();
    let mut i: usize = 0;
    while i < n
        invariant
            g.wf(),
            n == g.node_count(),
            i <= n,
            in_deg@.len() == i,
            forall|x: int| 0 <= x < i ==> in_deg@[x] == g.preds()[x].len(),
        decreases n - i,
    {
        in_deg.push(g.in_degree(i));
        i = i + 1;
    }

    let mut queue: Vec<usize> = Vec::new();
    let mut s: usize = 0;
    while s < n
        invariant
            g.wf(),
            n == g.node_count(),
            s <= n,
            in_deg@.len() == n,
            forall|x: int| 0 <= x < n ==> in_deg@[x] == g.preds()[x].len(),
            strictly_increasing(queue@),
            forall|i2: int| 0 <= i2 < queue@.len() ==> (#[trigger] queue@[i2]) < s,
            forall|x: usize| x < s ==> (queue@.contains(x) <==> in_deg@[x as int] == 0),
        decreases n - s,
    {
        if in_deg[s] == 0 {
            let ghost q0 = queue@;
            queue.push(s);
            proof {
                assert forall|x: usize| x < s + 1 implies (queue@.contains(x) <==> in_deg@[x as int] == 0) by {
                    lemma_contains_push(q0, s, x);
                }
                assert forall|a: int, b: int| 0 <= a < b < queue@.len() implies queue@[a]
                    < queue@[b] by {
                    if b < q0.len() {
                        assert(q0[a] < q0[b]);
                    } else {
                        assert(queue@[b] == s);
                        assert(queue@[a] == q0[a]);
                    }
                }
            }
        } else {
            proof {
                assert forall|x: usize| x < s + 1 implies (queue@.contains(x) <==> in_deg@[x as int] == 0) by {
                    if x == s && queue@.contains(x) {
                        let i2 = choose|i2: int| 0 <= i2 < queue@.len() && queue@[i2] == x;
                        assert(queue@[i2] < s);
                    }
                }
            }
        }
        s = s + 1;
    }

    let mut order: Vec<usize> = Vec::new();
    proof {
        assert forall|x: usize| x < n implies in_deg@[x as int] == count_open(
            g.preds()[x as int],
            order@,
        ) by {
            lemma_count_open_empty(g.preds()[x as int]);
            assert(order@ =~= Seq::<usize>::empty());
        }
    }
    while queue.len() > 0
        invariant
            g.wf(),
            n == g.node_count(),
            in_deg@.len() == n,
            strictly_increasing(queue@),
            forall|i2: int| 0 <= i2 < queue@.len() ==> (#[trigger] queue@[i2]) < n,
            forall|i2: int| 0 <= i2 < order@.len() ==> (#[trigger] order@[i2]) < n,
            order@.no_duplicates(),
            order@.len() <= n,
            forall|x: usize|
                x < n ==> in_deg@[x as int] == count_open(g.preds()[x as int], order@),
            forall|x: usize|
                x < n ==> (queue@.contains(x) <==> !order@.contains(x) && in_deg@[x as int] == 0),
            forall|i2: int|
                0 <= i2 < order@.len() ==> is_min_ready(g, order@.take(i2), #[trigger] order@[i2]),
        decreases n - order@.len(),
    {
        let ghost q0 = queue@;
        let u = queue.remove(0);
        let ghost done0 = order@;
        proof {
            q0.remove_ensures(0);
            assert(q0.contains(u)) by {
                assert(q0[0] == u);
            }
            assert(u < n);
            assert(!done0.contains(u) && in_deg@[u as int] == 0);
            lemma_count_open_zero(g.preds()[u as int], done0);
            assert(ready(g, done0, u));
            assert forall|w: usize| w < n && !done0.contains(w) && #[trigger] ready(
                g,
                done0,
                w,
            ) implies u <= w by {
                lemma_count_open_zero(g.preds()[w as int], done0);
                assert(in_deg@[w as int] == 0);
                assert(q0.contains(w));
                let iw = choose|i2: int| 0 <= i2 < q0.len() && q0[i2] == w;
                if iw > 0 {
                    assert(q0[0] < q0[iw]);
                }
            }
            assert(is_min_ready(g, done0, u));
            // the remaining queue is still sorted, in range, and contains
            // exactly the old entries other than u
            assert forall|a: int, b: int| 0 <= a < b < queue@.len() implies queue@[a]
                < queue@[b] by {
                assert(queue@[a] == q0[a + 1]);
                assert(queue@[b] == q0[b + 1]);
            }
            assert forall|i2: int| 0 <= i2 < queue@.len() implies (#[trigger] queue@[i2]) < n by {
                assert(queue@[i2] == q0[i2 + 1]);
            }
            assert forall|x: usize| queue@.contains(x) implies q0.contains(x) && x != u by {
                let i2 = choose|i2: int| 0 <= i2 < queue@.len() && queue@[i2] == x;
                assert(queue@[i2] == q0[i2 + 1]);
                assert(q0[0] < q0[i2 + 1]);
            }
            assert forall|x: usize| q0.contains(x) && x != u implies queue@.contains(x) by {
                let iw = choose|i2: int| 0 <= i2 < q0.len() && q0[i2] == x;
                assert(iw != 0);
                assert(queue@[iw - 1] == q0[iw]);
            }
        }
        order.push(u);
        proof {
            assert forall|i2: int| 0 <= i2 < order@.len() implies is_min_ready(
                g,
                order@.take(i2),
                #[trigger] order@[i2],
            ) by {
                if i2 < order@.len() - 1 {
                    assert(order@.take(i2) =~= done0.take(i2));
                    assert(order@[i2] == done0[i2]);
                    assert(is_min_ready(g, done0.take(i2), done0[i2]));
                } else {
                    assert(order@.take(i2) =~= done0);
                }
            }
            assert forall|a: int, b: int|
                (0 <= a < order@.len() && 0 <= b < order@.len() && a != b) implies order@[a]
                != order@[b] by {
                let (lo, hi) = if a < b {
                    (a, b)
                } else {
                    (b, a)
                };
                if hi < order@.len() - 1 {
                    assert(done0[lo] != done0[hi]);
                } else {
                    assert(order@[hi] == u);
                    assert(done0.contains(done0[lo]));
                }
            }
            lemma_bounded_distinct_len(order@, n as nat);
            assert forall|x: usize| x < n implies (queue@.contains(x) <==> !order@.contains(x)
                && in_deg@[x as int] == 0) by {
                lemma_contains_push(done0, u, x);
            }
        }
        let row = g.successors_slice(u);
        proof {
            assert(row@.take(0) =~= Seq::<usize>::empty());
            lemma_count_open_ge_occurrences(g.preds()[u as int], done0, u);
            assert(occurrences(g.succs()[u as int], u) == occurrences(g.preds()[u as int], u));
            lemma_occurrences_contains(row@, u);
            assert(!row@.contains(u));
        }
        let mut j: usize = 0;
        while j < row.len()
            invariant
                g.wf(),
                n == g.node_count(),
                u < n,
                row@ == g.succs()[u as int],
                !done0.contains(u),
                count_open(g.preds()[u as int], done0) == 0,
                order@ == done0.push(u),
                !row@.contains(u),
                j <= row@.len(),
                in_deg@.len() == n,
                forall|x: usize|
                    x < n ==> in_deg@[x as int] + occurrences(row@.take(j as int), x) == count_open(
                        g.preds()[x as int],
                        done0,
                    ),
                strictly_increasing(queue@),
                forall|i2: int| 0 <= i2 < queue@.len() ==> (#[trigger] queue@[i2]) < n,
                forall|x: usize|
                    x < n ==> (queue@.contains(x) <==> !order@.contains(x) && in_deg@[x as int]
                        == 0),
                forall|i2: int|
                    0 <= i2 < order@.len() ==> is_min_ready(
                        g,
                        order@.take(i2),
                        #[trigger] order@[i2],
                    ),
            decreases row@.len() - j,
        {
            let w = row[j];
            let ghost indeg0 = in_deg@;
            proof {
                assert(g.succs()[u as int][j as int] < n);
                assert(w < n);
                // w has at least one still-open predecessor occurrence: u itself
                lemma_count_open_ge_occurrences(g.preds()[w as int], done0, u);
                assert(occurrences(g.succs()[u as int], w) == occurrences(g.preds()[w as int], u));
                lemma_occurrences_take_le(row@, j as int + 1, w);
                lemma_occurrences_take_step(row@, j as int, w);
                assert(in_deg@[w as int] >= 1);
                // w is not yet emitted: u is not done, and every done node
                // had all its predecessors done already
                assert(w != u);
                if done0.contains(w) {
                    let iw = choose|i2: int| 0 <= i2 < done0.len() && done0[i2] == w;
                    assert(order@[iw] == w);
                    assert(is_min_ready(g, order@.take(iw), order@[iw]));
                    assert forall|i2: int| 0 <= i2 < g.preds()[w as int].len() implies
                        done0.contains(#[trigger] g.preds()[w as int][i2]) by {
                        assert(order@.take(iw).contains(g.preds()[w as int][i2]));
                        let k = choose|k: int|
                            0 <= k < order@.take(iw).len() && order@.take(iw)[k] == g.preds()[w as int][i2];
                        assert(done0[k] == g.preds()[w as int][i2]);
                    }
                    lemma_count_open_zero(g.preds()[w as int], done0);
                    assert(false);
                }
                assert(!order@.contains(w)) by {
                    lemma_contains_push(done0, u, w);
                }
            }
            let d0 = in_deg[w];
            let dn = d0 - 1;
            in_deg[w] = dn;
            proof {
                assert forall|x: usize| x < n implies in_deg@[x as int] + occurrences(
                    row@.take(j as int + 1),
                    x,
                ) == count_open(g.preds()[x as int], done0) by {
                    lemma_occurrences_take_step(row@, j as int, x);
                    assert(indeg0[x as int] + occurrences(row@.take(j as int), x) == count_open(
                        g.preds()[x as int],
                        done0,
                    ));
                }
            }
            if dn == 0 {
                proof {
                    assert(!queue@.contains(w)) by {
                        assert(indeg0[w as int] != 0);
                    }
                }
                let mut pos: usize = 0;
                while pos < queue.len() && queue[pos] < w
                    invariant
                        pos <= queue@.len(),
                        forall|k: int| 0 <= k < pos ==> (#[trigger] queue@[k]) < w,
                    decreases queue@.len() - pos,
                {
                    pos = pos + 1;
                }
                let ghost qb = queue@;
                queue.insert(pos, w);
                proof {
                    qb.insert_ensures(pos as int, w);
                    assert forall|k: int| pos <= k < qb.len() implies (#[trigger] qb[k]) > w by {
                        if k > pos {
                            assert(qb[pos as int] < qb[k]);
                        }
                        assert(qb[k] != w) by {
                            assert(!qb.contains(w));
                        }
                    }
                    assert forall|a: int, b: int| 0 <= a < b < queue@.len() implies queue@[a]
                        < queue@[b] by {
                        if b < pos {
                            assert(queue@[a] == qb[a] && queue@[b] == qb[b]);
                        } else if b == pos {
                            assert(queue@[a] == qb[a]);
                            assert(queue@[b] == w);
                        } else if a < pos {
                            assert(queue@[a] == qb[a]);
                            assert(queue@[(b - 1) + 1] == qb[b - 1]);
                            assert(qb[b - 1] > w || b - 1 < pos);
                        } else if a == pos {
                            assert(queue@[a] == w);
                            assert(queue@[(b - 1) + 1] == qb[b - 1]);
                            assert(qb[b - 1] > w);
                        } else {
                            assert(queue@[(a - 1) + 1] == qb[a - 1]);
                            assert(queue@[(b - 1) + 1] == qb[b - 1]);
                        }
                    }
                    assert forall|i2: int| 0 <= i2 < queue@.len() implies (#[trigger] queue@[i2])
                        < n by {
                        if i2 < pos {
                            assert(queue@[i2] == qb[i2]);
                        } else if i2 == pos {
                        } else {
                            assert(queue@[(i2 - 1) + 1] == qb[i2 - 1]);
                        }
                    }
                    assert forall|x: usize| x < n implies (queue@.contains(x) <==> !order@.contains(
                        x,
                    ) && in_deg@[x as int] == 0) by {
                        lemma_insert_contains(qb, pos as int, w, x);
                        if x != w {
                            assert(in_deg@[x as int] == indeg0[x as int]);
                        }
                    }
                }
            } else {
                proof {
                    assert forall|x: usize| x < n implies (queue@.contains(x) <==> !order@.contains(
                        x,
                    ) && in_deg@[x as int] == 0) by {
                        if x == w {
                            assert(indeg0[w as int] != 0);
                            assert(!queue@.contains(w));
                            assert(in_deg@[w as int] == dn);
                        } else {
                            assert(in_deg@[x as int] == indeg0[x as int]);
                        }
                    }
                }
            }
            j = j + 1;
        }
        proof {
            assert(row@.take(row@.len() as int) =~= row@);
            assert forall|x: usize| x < n implies in_deg@[x as int] == count_open(
                g.preds()[x as int],
                order@,
            ) by {
                lemma_count_open_mark(g.preds()[x as int], done0, u);
                assert(occurrences(g.succs()[u as int], x) == occurrences(g.preds()[x as int], u));
                assert(in_deg@[x as int] + occurrences(row@, x) == count_open(
                    g.preds()[x as int],
                    done0,
                ));
            }
        }
    }
    if order.len() == n {
        proof {
            assert(is_kahn_order(g, order@));
            lemma_kahn_no_cycle(g, order@);
        }
        Some(order)
    } else {
        proof {
            lemma_bounded_distinct_len(order@, n as nat);
            assert forall|x: usize| x < n && !order@.contains(x) implies #[trigger] has_open_pred(
                g,
                order@,
                x,
            ) by {
                assert(!queue@.contains(x));
                assert(in_deg@[x as int] != 0);
                lemma_count_open_zero(g.preds()[x as int], order@);
                let i2 = choose|i2: int|
                    0 <= i2 < g.preds()[x as int].len() && !order@.contains(
                        #[trigger] g.preds()[x as int][i2],
                    );
                let u0 = g.preds()[x as int][i2];
                assert(u0 < n);
                assert(g.preds()[x as int].contains(u0));
                lemma_occurrences_contains(g.preds()[x as int], u0);
                assert(occurrences(g.succs()[u0 as int], x) > 0);
                lemma_occurrences_contains(g.succs()[u0 as int], x);
                assert(g.edge(u0, x));
                assert(u0 < n && !order@.contains(u0) && g.edge(u0, x));
            }
            assert(exists|x: usize| x < n && !order@.contains(x));
            lemma_stuck_has_cycle(g, order@);
        }
        None
    }
}

/// A graph is a DAG exactly when a topological order of it exists.
pub fn is_dag(g: &DiGraph) -> (r: bool)
    requires
        g.wf(),
    ensures
        r <==> !has_cycle(g),
{
    topological_sort(g).is_some()
}

/// Topological sort outcome carrying the order (meaningful only when
/// `is_dag` is set) and the cycle verdict.
pub struct TopoSortResult {
    /// Sorted node indices; empty when the graph is not a DAG.
    pub order: Vec<usize>,
    /// Whether the graph is a DAG.
    pub is_dag: bool,
}

/// Topological sort with a structured outcome: the Kahn order and a true
/// flag for a DAG, an empty order and a false flag for a cyclic graph.
pub fn topological_sort_result(g: &DiGraph) -> (r: TopoSortResult)
    requires
        g.wf(),
    ensures
        r.is_dag <==> !has_cycle(g),
        r.is_dag ==> is_kahn_order(g, r.order@),
        !r.is_dag ==> r.order@ == Seq::<usize>::empty(),
{
    match topological_sort(g) {
        Some(order) => TopoSortResult { order, is_dag: true },
        None => {
            let r = TopoSortResult { order: Vec::new(), is_dag: false };
            proof {
                assert(r.order@ =~= Seq::<usize>::empty());
            }
            r
        },
    }
}

} // verus!
