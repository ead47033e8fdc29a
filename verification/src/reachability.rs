//! Reachability queries (forward and backward closures in breadth-first
//! discovery order) and blocking/actionability analysis against a
//! caller-supplied completion state.

use crate::graph::{lemma_contains_push, strictly_increasing, DiGraph};
use vstd::prelude::*;

verus! {

/// Number of false entries of a visited marker.
pub open spec fn count_false(vis: Seq<bool>) -> nat
    decreases vis.len(),
{
    if vis.len() == 0 {
        0
    } else {
        count_false(vis.drop_last()) + if vis.last() {
            0nat
        } else {
            1nat
        }
    }
}

pub proof fn lemma_count_false_set(vis: Seq<bool>, i: int)
    requires
        0 <= i < vis.len(),
        !vis[i],
    ensures
        count_false(vis.update(i, true)) + 1 == count_false(vis),
    decreases vis.len(),
{
    if i == vis.len() - 1 {
        assert(vis.update(i, true).drop_last() =~= vis.drop_last());
    } else {
        assert(vis.update(i, true).drop_last() =~= vis.drop_last().update(i, true));
        lemma_count_false_set(vis.drop_last(), i);
    }
}

pub proof fn lemma_count_false_le(v1: Seq<bool>, v2: Seq<bool>)
    requires
        v1.len() == v2.len(),
        forall|i: int| 0 <= i < v1.len() && v1[i] ==> v2[i],
    ensures
        count_false(v2) <= count_false(v1),
    decreases v1.len(),
{
    if v1.len() > 0 {
        lemma_count_false_le(v1.drop_last(), v2.drop_last());
    }
}

/// Every stored index of every adjacency row is itself a valid row index.
pub open spec fn adj_wf(adj: Seq<Seq<usize>>) -> bool {
    forall|u: int, k: int|
        0 <= u < adj.len() && 0 <= k < adj[u].len() ==> (#[trigger] adj[u][k]) < adj.len()
}

/// Walk one adjacency row left to right, enqueueing and marking each entry
/// that is not yet visited.
pub open spec fn row_admit(row: Seq<usize>, queue: Seq<usize>, vis: Seq<bool>) -> (Seq<usize>, Seq<
    bool,
>)
    decreases row.len(),
{
    if row.len() == 0 {
        (queue, vis)
    } else {
        let w = row[0];
        if (w as int) < vis.len() && !vis[w as int] {
            row_admit(row.drop_first(), queue.push(w), vis.update(w as int, true))
        } else {
            row_admit(row.drop_first(), queue, vis)
        }
    }
}

pub proof fn lemma_row_admit(row: Seq<usize>, queue: Seq<usize>, vis: Seq<bool>)
    requires
        forall|k: int| 0 <= k < row.len() ==> (#[trigger] row[k] as int) < vis.len(),
        forall|k: int|
            0 <= k < queue.len() ==> (#[trigger] queue[k] as int) < vis.len() && vis[queue[k] as int],
    ensures
        row_admit(row, queue, vis).1.len() == vis.len(),
        forall|x: int| 0 <= x < vis.len() && vis[x] ==> row_admit(row, queue, vis).1[x],
        count_false(row_admit(row, queue, vis).1) + row_admit(row, queue, vis).0.len()
            == count_false(vis) + queue.len(),
        row_admit(row, queue, vis).0.len() >= queue.len(),
        forall|k: int|
            0 <= k < queue.len() ==> #[trigger] row_admit(row, queue, vis).0[k] == queue[k],
        forall|x: usize|
            #[trigger] row_admit(row, queue, vis).0.contains(x) ==> queue.contains(x)
                || row.contains(x),
        forall|x: usize| queue.contains(x) ==> #[trigger] row_admit(row, queue, vis).0.contains(x),
        forall|x: usize|
            (x as int) < vis.len() && #[trigger] row_admit(row, queue, vis).1[x as int] ==> vis[x as int]
                || row_admit(row, queue, vis).0.contains(x),
        forall|k: int|
            0 <= k < row.len() ==> row_admit(row, queue, vis).1[#[trigger] row[k] as int],
        forall|k: int|
            0 <= k < row_admit(row, queue, vis).0.len() ==> (#[trigger] row_admit(row, queue, vis).0[k]
                as int) < vis.len() && row_admit(row, queue, vis).1[row_admit(
                row,
                queue,
                vis,
            ).0[k] as int],
    decreases row.len(),
{
    if row.len() > 0 {
        let w = row[0];
        let tail = row.drop_first();
        assert(forall|k: int| 0 <= k < tail.len() ==> tail[k] == row[k + 1]);
        if (w as int) < vis.len() && !vis[w as int] {
            let q1 = queue.push(w);
            let v1 = vis.update(w as int, true);
            lemma_row_admit(tail, q1, v1);
            lemma_count_false_set(vis, w as int);
            assert forall|x: int| 0 <= x < vis.len() && vis[x] implies row_admit(
                row,
                queue,
                vis,
            ).1[x] by {
                assert(v1[x]);
                assert(row_admit(tail, q1, v1).1[x]);
            }
            assert forall|x: usize| #[trigger]
                row_admit(row, queue, vis).0.contains(x) implies queue.contains(x) || row.contains(
                x,
            ) by {
                lemma_contains_push(queue, w, x);
                if x == w {
                    assert(row[0] == x);
                } else if tail.contains(x) && !queue.contains(x) {
                    let k = choose|k: int| 0 <= k < tail.len() && tail[k] == x;
                    assert(row[k + 1] == x);
                }
            }
            assert forall|x: usize| queue.contains(x) implies #[trigger] row_admit(
                row,
                queue,
                vis,
            ).0.contains(x) by {
                lemma_contains_push(queue, w, x);
            }
            assert forall|x: usize|
                (x as int) < vis.len() && #[trigger] row_admit(row, queue, vis).1[x as int] implies
                vis[x as int] || row_admit(row, queue, vis).0.contains(x) by {
                if !vis[x as int] && x != w {
                    assert(!v1[x as int]);
                }
                if x == w {
                    assert(q1.contains(w)) by {
                        assert(q1[q1.len() - 1] == w);
                    }
                }
            }
            assert forall|k: int| 0 <= k < row.len() implies row_admit(row, queue, vis).1[
            #[trigger] row[k] as int] by {
                if k == 0 {
                    assert(v1[w as int]);
                } else {
                    assert(tail[k - 1] == row[k]);
                }
            }
        } else {
            lemma_row_admit(tail, queue, vis);
            assert forall|x: int| 0 <= x < vis.len() && vis[x] implies row_admit(
                row,
                queue,
                vis,
            ).1[x] by {
                assert(row_admit(tail, queue, vis).1[x]);
            }
            assert forall|x: usize| #[trigger]
                row_admit(row, queue, vis).0.contains(x) implies queue.contains(x) || row.contains(
                x,
            ) by {
                if tail.contains(x) && !queue.contains(x) {
                    let k = choose|k: int| 0 <= k < tail.len() && tail[k] == x;
                    assert(row[k + 1] == x);
                }
            }
            assert forall|k: int| 0 <= k < row.len() implies row_admit(row, queue, vis).1[
            #[trigger] row[k] as int] by {
                if k == 0 {
                    assert(vis[w as int]);
                } else {
                    assert(tail[k - 1] == row[k]);
                }
            }
        }
    }
}

/// The state of a breadth-first traversal: a marker per node, every queued
/// node marked and in range.
pub open spec fn bfs_inv(adj: Seq<Seq<usize>>, queue: Seq<usize>, vis: Seq<bool>) -> bool {
    &&& vis.len() == adj.len()
    &&& adj_wf(adj)
    &&& forall|k: int|
        0 <= k < queue.len() ==> (#[trigger] queue[k] as int) < adj.len() && vis[queue[k] as int]
}

/// Run the traversal to completion: emit the front of the queue, admit its
/// unvisited neighbours, repeat until the queue empties.
pub open spec fn bfs_rounds(
    adj: Seq<Seq<usize>>,
    queue: Seq<usize>,
    vis: Seq<bool>,
    out: Seq<usize>,
) -> Seq<usize>
    decreases count_false(vis), queue.len(),
        when bfs_inv(adj, queue, vis)
        via bfs_rounds_decreases
{
    if queue.len() == 0 {
        out
    } else {
        let v = queue[0];
        let step = row_admit(adj[v as int], queue.drop_first(), vis);
        bfs_rounds(adj, step.0, step.1, out.push(v))
    }
}

#[via_fn]
proof fn bfs_rounds_decreases(
    adj: Seq<Seq<usize>>,
    queue: Seq<usize>,
    vis: Seq<bool>,
    out: Seq<usize>,
) {
    if queue.len() > 0 {
        let v = queue[0];
        lemma_row_admit(adj[v as int], queue.drop_first(), vis);
        let step = row_admit(adj[v as int], queue.drop_first(), vis);
        lemma_count_false_le(vis, step.1);
    }
}

/// One traversal step preserves the traversal state invariant.
proof fn lemma_bfs_step(adj: Seq<Seq<usize>>, queue: Seq<usize>, vis: Seq<bool>)
    requires
        bfs_inv(adj, queue, vis),
        queue.len() > 0,
    ensures
        bfs_inv(
            adj,
            row_admit(adj[queue[0] as int], queue.drop_first(), vis).0,
            row_admit(adj[queue[0] as int], queue.drop_first(), vis).1,
        ),
        count_false(row_admit(adj[queue[0] as int], queue.drop_first(), vis).1) <= count_false(vis),
        count_false(row_admit(adj[queue[0] as int], queue.drop_first(), vis).1) + row_admit(
            adj[queue[0] as int],
            queue.drop_first(),
            vis,
        ).0.len() + 1 == count_false(vis) + queue.len(),
{
    let v = queue[0];
    lemma_row_admit(adj[v as int], queue.drop_first(), vis);
    let step = row_admit(adj[v as int], queue.drop_first(), vis);
    lemma_count_false_le(vis, step.1);
    assert forall|k: int| 0 <= k < step.0.len() implies (#[trigger] step.0[k] as int) < adj.len()
        && step.1[step.0[k] as int] by {
        let x = step.0[k];
        assert(step.0.contains(x));
        if !queue.drop_first().contains(x) {
            assert(adj[v as int].contains(x));
            let m = choose|m: int| 0 <= m < adj[v as int].len() && adj[v as int][m] == x;
            assert(adj[v as int][m] < adj.len());
        }
    }
}

/// Admitting a row keeps the queue free of repeats: every entry is either
/// an old one or was unvisited when appended, and is marked at once.
proof fn lemma_row_admit_distinct(row: Seq<usize>, queue: Seq<usize>, vis: Seq<bool>)
    requires
        forall|k: int| 0 <= k < row.len() ==> (#[trigger] row[k] as int) < vis.len(),
        forall|k: int|
            0 <= k < queue.len() ==> (#[trigger] queue[k] as int) < vis.len() && vis[queue[k] as int],
        queue.no_duplicates(),
    ensures
        row_admit(row, queue, vis).0.no_duplicates(),
        forall|x: usize|
            #[trigger] row_admit(row, queue, vis).0.contains(x) ==> queue.contains(x) || ((
            x as int) < vis.len() && !vis[x as int]),
    decreases row.len(),
{
    if row.len() > 0 {
        let w = row[0];
        let tail = row.drop_first();
        if (w as int) < vis.len() && !vis[w as int] {
            let q1 = queue.push(w);
            let v1 = vis.update(w as int, true);
            assert(!queue.contains(w));
            assert forall|a: int, b: int|
                (0 <= a < q1.len() && 0 <= b < q1.len() && a != b) implies q1[a] != q1[b] by {
                if a < q1.len() - 1 && b < q1.len() - 1 {
                    assert(queue[a] != queue[b]);
                } else {
                    let lo = if a < b {
                        a
                    } else {
                        b
                    };
                    assert(q1[lo] == queue[lo]);
                    assert(queue.contains(queue[lo]));
                }
            }
            lemma_row_admit_distinct(tail, q1, v1);
            assert forall|x: usize| #[trigger]
                row_admit(row, queue, vis).0.contains(x) implies queue.contains(x) || ((x as int)
                < vis.len() && !vis[x as int]) by {
                lemma_contains_push(queue, w, x);
                if !v1[x as int] {
                    assert(!vis[x as int]);
                }
            }
        } else {
            lemma_row_admit_distinct(tail, queue, vis);
        }
    }
}

/// The discovery sequence repeats no node: emitted nodes are visited, the
/// queue holds no repeats, and nothing visited is ever enqueued again.
proof fn lemma_bfs_rounds_distinct(
    adj: Seq<Seq<usize>>,
    queue: Seq<usize>,
    vis: Seq<bool>,
    out: Seq<usize>,
)
    requires
        bfs_inv(adj, queue, vis),
        queue.no_duplicates(),
        out.no_duplicates(),
        forall|x: usize|
            #[trigger] out.contains(x) ==> (x as int) < vis.len() && vis[x as int],
        forall|x: usize| #[trigger] out.contains(x) ==> !queue.contains(x),
    ensures
        bfs_rounds(adj, queue, vis, out).no_duplicates(),
    decreases count_false(vis), queue.len(),
{
    if queue.len() > 0 {
        let v = queue[0];
        lemma_bfs_step(adj, queue, vis);
        lemma_row_admit(adj[v as int], queue.drop_first(), vis);
        let rest = queue.drop_first();
        assert forall|a: int, b: int|
            (0 <= a < rest.len() && 0 <= b < rest.len() && a != b) implies rest[a] != rest[b] by {
            assert(rest[a] == queue[a + 1]);
            assert(rest[b] == queue[b + 1]);
        }
        assert forall|k: int|
            0 <= k < rest.len() implies (#[trigger] rest[k] as int) < vis.len() && vis[rest[k] as int] by {
            assert(rest[k] == queue[k + 1]);
        }
        lemma_row_admit_distinct(adj[v as int], rest, vis);
        let step = row_admit(adj[v as int], rest, vis);
        let out1 = out.push(v);
        assert(queue.contains(v)) by {
            assert(queue[0] == v);
        }
        assert(!out.contains(v));
        assert forall|a: int, b: int|
            (0 <= a < out1.len() && 0 <= b < out1.len() && a != b) implies out1[a] != out1[b] by {
            if a < out1.len() - 1 && b < out1.len() - 1 {
                assert(out[a] != out[b]);
            } else {
                let lo = if a < b {
                    a
                } else {
                    b
                };
                assert(out1[lo] == out[lo]);
                assert(out.contains(out[lo]));
            }
        }
        assert forall|x: usize| #[trigger] out1.contains(x) implies (x as int) < step.1.len()
            && step.1[x as int] by {
            lemma_contains_push(out, v, x);
        }
        assert forall|x: usize| #[trigger] out1.contains(x) implies !step.0.contains(x) by {
            lemma_contains_push(out, v, x);
            if step.0.contains(x) {
                if rest.contains(x) {
                    let k = choose|k: int| 0 <= k < rest.len() && rest[k] == x;
                    assert(rest[k] == queue[k + 1]);
                    assert(queue.contains(x));
                    if x == v {
                        assert(queue[0] == queue[k + 1]);
                    }
                } else {
                    assert(!vis[x as int]);
                }
            }
        }
        lemma_bfs_rounds_distinct(adj, step.0, step.1, out1);
        assert(bfs_rounds(adj, queue, vis, out) == bfs_rounds(adj, step.0, step.1, out1));
    }
}

/// The visited marker at the start of a traversal: only `start` is marked.
pub open spec fn init_vis(n: nat, start: usize) -> Seq<bool> {
    Seq::new(n, |i: int| i == start as int)
}

/// The full breadth-first discovery sequence from `start`; empty when
/// `start` is out of range.
pub open spec fn bfs_result(adj: Seq<Seq<usize>>, start: usize) -> Seq<usize> {
    if (start as int) < adj.len() {
        bfs_rounds(adj, seq![start], init_vis(adj.len(), start), Seq::<usize>::empty())
    } else {
        Seq::<usize>::empty()
    }
}

/// `p` follows adjacency entries from its first to its last node.
pub open spec fn is_walk(adj: Seq<Seq<usize>>, p: Seq<usize>) -> bool {
    &&& p.len() >= 1
    &&& forall|i: int| 0 <= i < p.len() ==> (#[trigger] p[i] as int) < adj.len()
    &&& forall|i: int| 0 <= i < p.len() - 1 ==> adj[#[trigger] p[i] as int].contains(p[i + 1])
}

/// `t` is reachable from `s`: some walk starts at `s` and ends at `t`.
/// A walk of one node makes reachability reflexive at every valid index.
pub open spec fn reaches(adj: Seq<Seq<usize>>, s: usize, t: usize) -> bool {
    exists|p: Seq<usize>| #[trigger] is_walk(adj, p) && p[0] == s && p[p.len() - 1] == t
}

pub proof fn lemma_reaches_refl(adj: Seq<Seq<usize>>, s: usize)
    requires
        (s as int) < adj.len(),
    ensures
        reaches(adj, s, s),
{
    let p = seq![s];
    assert(is_walk(adj, p));
}

pub proof fn lemma_reaches_step(adj: Seq<Seq<usize>>, s: usize, x: usize, y: usize)
    requires
        reaches(adj, s, x),
        adj[x as int].contains(y),
        (y as int) < adj.len(),
    ensures
        reaches(adj, s, y),
{
    let p = choose|p: Seq<usize>| #[trigger] is_walk(adj, p) && p[0] == s && p[p.len() - 1] == x;
    let q = p.push(y);
    assert forall|i: int| 0 <= i < q.len() - 1 implies adj[#[trigger] q[i] as int].contains(
        q[i + 1],
    ) by {
        if i < p.len() - 1 {
            assert(adj[p[i] as int].contains(p[i + 1]));
        }
    }
    assert(is_walk(adj, q));
    assert(q[0] == s && q[q.len() - 1] == y);
}

/// Everything already emitted or queued appears in the final discovery
/// sequence.
proof fn lemma_bfs_rounds_carries(adj: Seq<Seq<usize>>, queue: Seq<usize>, vis: Seq<bool>, out: Seq<
    usize,
>)
    requires
        bfs_inv(adj, queue, vis),
    ensures
        forall|x: usize|
            out.contains(x) || queue.contains(x) ==> #[trigger] bfs_rounds(
                adj,
                queue,
                vis,
                out,
            ).contains(x),
    decreases count_false(vis), queue.len(),
{
    if queue.len() > 0 {
        let v = queue[0];
        lemma_bfs_step(adj, queue, vis);
        lemma_row_admit(adj[v as int], queue.drop_first(), vis);
        let step = row_admit(adj[v as int], queue.drop_first(), vis);
        lemma_bfs_rounds_carries(adj, step.0, step.1, out.push(v));
        assert forall|x: usize| out.contains(x) || queue.contains(x) implies #[trigger] bfs_rounds(
            adj,
            queue,
            vis,
            out,
        ).contains(x) by {
            lemma_contains_push(out, v, x);
            if x == v || out.contains(x) {
                assert(out.push(v).contains(x));
            } else {
                let k = choose|k: int| 0 <= k < queue.len() && queue[k] == x;
                assert(queue.drop_first()[k - 1] == x);
                assert(queue.drop_first().contains(x));
                assert(step.0.contains(x));
            }
            assert(bfs_rounds(adj, step.0, step.1, out.push(v)).contains(x));
        }
    }
}

/// Everything the traversal emits is reachable from `src`, provided
/// everything already emitted or queued is.
proof fn lemma_bfs_rounds_sound(
    adj: Seq<Seq<usize>>,
    queue: Seq<usize>,
    vis: Seq<bool>,
    out: Seq<usize>,
    src: usize,
)
    requires
        bfs_inv(adj, queue, vis),
        forall|x: usize| queue.contains(x) ==> #[trigger] reaches(adj, src, x),
        forall|x: usize| out.contains(x) ==> #[trigger] reaches(adj, src, x),
    ensures
        forall|x: usize|
            #[trigger] bfs_rounds(adj, queue, vis, out).contains(x) ==> reaches(adj, src, x),
    decreases count_false(vis), queue.len(),
{
    if queue.len() > 0 {
        let v = queue[0];
        lemma_bfs_step(adj, queue, vis);
        lemma_row_admit(adj[v as int], queue.drop_first(), vis);
        let step = row_admit(adj[v as int], queue.drop_first(), vis);
        assert(queue.contains(v)) by {
            assert(queue[0] == v);
        }
        assert forall|x: usize| step.0.contains(x) implies #[trigger] reaches(adj, src, x) by {
            if queue.drop_first().contains(x) {
                let k = choose|k: int|
                    0 <= k < queue.drop_first().len() && queue.drop_first()[k] == x;
                assert(queue[k + 1] == x);
                assert(queue.contains(x));
            } else {
                assert(adj[v as int].contains(x));
                let m = choose|m: int| 0 <= m < adj[v as int].len() && adj[v as int][m] == x;
                assert(adj[v as int][m] < adj.len());
                lemma_reaches_step(adj, src, v, x);
            }
        }
        assert forall|x: usize| out.push(v).contains(x) implies #[trigger] reaches(
            adj,
            src,
            x,
        ) by {
            lemma_contains_push(out, v, x);
        }
        lemma_bfs_rounds_sound(adj, step.0, step.1, out.push(v), src);
        assert forall|x: usize| #[trigger] bfs_rounds(adj, queue, vis, out).contains(x) implies
            reaches(adj, src, x) by {
            assert(bfs_rounds(adj, queue, vis, out) == bfs_rounds(adj, step.0, step.1, out.push(v)));
            assert(bfs_rounds(adj, step.0, step.1, out.push(v)).contains(x));
        }
    }
}

/// The final discovery sequence is closed under adjacency, provided every
/// marked node is emitted or queued and every emitted node's row is marked.
proof fn lemma_bfs_rounds_closed(
    adj: Seq<Seq<usize>>,
    queue: Seq<usize>,
    vis: Seq<bool>,
    out: Seq<usize>,
)
    requires
        bfs_inv(adj, queue, vis),
        forall|x: usize|
            (x as int) < vis.len() && vis[x as int] ==> out.contains(x) || queue.contains(x),
        forall|x: usize, k: int|
            out.contains(x) && 0 <= k < adj[x as int].len() ==> (#[trigger] adj[x as int][k] as int)
                < vis.len() && vis[adj[x as int][k] as int],
        forall|x: usize| out.contains(x) ==> (x as int) < adj.len(),
    ensures
        forall|x: usize, k: int|
            #[trigger] bfs_rounds(adj, queue, vis, out).contains(x) && 0 <= k < adj[x as int].len()
                ==> bfs_rounds(adj, queue, vis, out).contains(#[trigger] adj[x as int][k]),
    decreases count_false(vis), queue.len(),
{
    let r = bfs_rounds(adj, queue, vis, out);
    if queue.len() == 0 {
        assert forall|x: usize, k: int|
            #[trigger] r.contains(x) && 0 <= k < adj[x as int].len() implies r.contains(
            #[trigger] adj[x as int][k]) by {
            assert(vis[adj[x as int][k] as int]);
            assert(out.contains(adj[x as int][k]) || queue.contains(adj[x as int][k]));
        }
    } else {
        let v = queue[0];
        lemma_bfs_step(adj, queue, vis);
        lemma_row_admit(adj[v as int], queue.drop_first(), vis);
        let step = row_admit(adj[v as int], queue.drop_first(), vis);
        assert(queue.contains(v)) by {
            assert(queue[0] == v);
        }
        assert forall|x: usize|
            (x as int) < step.1.len() && step.1[x as int] implies out.push(v).contains(x)
                || step.0.contains(x) by {
            lemma_contains_push(out, v, x);
            if vis[x as int] {
                if queue.contains(x) {
                    let k = choose|k: int| 0 <= k < queue.len() && queue[k] == x;
                    if k > 0 {
                        assert(queue.drop_first()[k - 1] == x);
                        assert(queue.drop_first().contains(x));
                    }
                }
            }
        }
        assert forall|x: usize, k: int|
            out.push(v).contains(x) && 0 <= k < adj[x as int].len() implies (#[trigger] adj[
            x as int][k] as int) < step.1.len() && step.1[adj[x as int][k] as int] by {
            lemma_contains_push(out, v, x);
            if out.contains(x) {
                assert(vis[adj[x as int][k] as int]);
            } else {
                assert(x == v);
            }
        }
        assert forall|x: usize| out.push(v).contains(x) implies (x as int) < adj.len() by {
            lemma_contains_push(out, v, x);
        }
        lemma_bfs_rounds_closed(adj, step.0, step.1, out.push(v));
        assert forall|x: usize, k: int|
            #[trigger] r.contains(x) && 0 <= k < adj[x as int].len() implies r.contains(
            #[trigger] adj[x as int][k]) by {
            assert(r == bfs_rounds(adj, step.0, step.1, out.push(v)));
            assert(bfs_rounds(adj, step.0, step.1, out.push(v)).contains(x));
            assert(bfs_rounds(adj, step.0, step.1, out.push(v)).contains(adj[x as int][k]));
        }
    }
}

/// Walking stays inside an adjacency-closed set of nodes.
proof fn lemma_walk_in_closed(adj: Seq<Seq<usize>>, r: Seq<usize>, p: Seq<usize>)
    requires
        is_walk(adj, p),
        r.contains(p[0]),
        forall|x: usize, k: int|
            #[trigger] r.contains(x) && 0 <= k < adj[x as int].len() ==> r.contains(
                #[trigger] adj[x as int][k],
            ),
    ensures
        r.contains(p[p.len() - 1]),
    decreases p.len(),
{
    if p.len() > 1 {
        assert(adj[p[0] as int].contains(p[1]));
        let m = choose|m: int| 0 <= m < adj[p[0] as int].len() && adj[p[0] as int][m] == p[1];
        assert(r.contains(adj[p[0] as int][m]));
        let q = p.drop_first();
        assert forall|i: int| 0 <= i < q.len() - 1 implies adj[#[trigger] q[i] as int].contains(
            q[i + 1],
        ) by {
            assert(q[i] == p[i + 1]);
            assert(q[i + 1] == p[i + 2]);
            assert(adj[p[i + 1] as int].contains(p[i + 2]));
        }
        assert(is_walk(adj, q));
        lemma_walk_in_closed(adj, r, q);
        assert(q[q.len() - 1] == p[p.len() - 1]);
    }
}

/// The discovery sequence from a valid start holds exactly the nodes
/// reachable from it.
pub proof fn lemma_bfs_result_reachable(adj: Seq<Seq<usize>>, start: usize)
    requires
        adj_wf(adj),
        (start as int) < adj.len(),
    ensures
        forall|t: usize| #[trigger] bfs_result(adj, start).contains(t) <==> reaches(adj, start, t),
{
    let q0 = seq![start];
    let v0 = init_vis(adj.len(), start);
    let out0 = Seq::<usize>::empty();
    let r = bfs_result(adj, start);
    assert(bfs_inv(adj, q0, v0));
    assert forall|x: usize| q0.contains(x) implies #[trigger] reaches(adj, start, x) by {
        assert(q0[0] == start);
        lemma_reaches_refl(adj, start);
    }
    lemma_bfs_rounds_sound(adj, q0, v0, out0, start);
    lemma_bfs_rounds_carries(adj, q0, v0, out0);
    assert(q0.contains(start)) by {
        assert(q0[0] == start);
    }
    assert(r.contains(start));
    assert forall|x: usize|
        (x as int) < v0.len() && v0[x as int] implies out0.contains(x) || q0.contains(x) by {
        assert(x == start);
        assert(q0[0] == start);
    }
    lemma_bfs_rounds_closed(adj, q0, v0, out0);
    assert forall|t: usize| reaches(adj, start, t) implies #[trigger] r.contains(t) by {
        let p = choose|p: Seq<usize>| #[trigger] is_walk(adj, p) && p[0] == start && p[p.len() - 1]
            == t;
        lemma_walk_in_closed(adj, r, p);
    }
}

/// All nodes reachable from `source` along successor edges, in
/// breadth-first discovery order, starting with `source` itself; empty for
/// an out-of-range index.
pub fn reachable_from(g: &DiGraph, source: usize) -> (r: Vec<usize>)
    requires
        g.wf(),
    ensures
        r@ == bfs_result(g.succs(), source),
        forall|t: usize| #[trigger] r@.contains(t) <==> reaches(g.succs(), source, t),
        r@.no_duplicates(),
        source < g.node_count() ==> r@.len() >= 1 && r@.contains(source),
        source >= g.node_count() ==> r@ == Seq::<usize>::empty(),
{
    bfs_core(g, source, false)
}

/// All nodes that can reach `target` along successor edges — equivalently,
/// all nodes reachable from `target` along predecessor edges — in
/// breadth-first discovery order, starting with `target` itself; empty for
/// an out-of-range index.
pub fn reachable_to(g: &DiGraph, target: usize) -> (r: Vec<usize>)
    requires
        g.wf(),
    ensures
        r@ == bfs_result(g.preds(), target),
        forall|t: usize| #[trigger] r@.contains(t) <==> reaches(g.preds(), target, t),
        r@.no_duplicates(),
        target < g.node_count() ==> r@.len() >= 1 && r@.contains(target),
        target >= g.node_count() ==> r@ == Seq::<usize>::empty(),
{
    bfs_core(g, target, true)
}

/// `reachable_to` on a graph equals `reachable_from` on the graph with
/// every edge reversed: a graph whose successor rows are the first graph's
/// predecessor rows yields the identical discovery sequence.
pub proof fn lemma_reachable_to_is_reversed_from(g: &DiGraph, h: &DiGraph, t: usize)
    requires
        h.succs() == g.preds(),
    ensures
        bfs_result(g.preds(), t) == bfs_result(h.succs(), t),
{
}

/// Shared breadth-first traversal over successor or predecessor rows.
fn bfs_core(g: &DiGraph, start: usize, backward: bool) -> (r: Vec<usize>)
    requires
        g.wf(),
    ensures
        r@ == bfs_result(
            if backward {
                g.preds()
            } else {
                g.succs()
            },
            start,
        ),
        ({
            let adj = if backward {
                g.preds()
            } else {
                g.succs()
            };
            &&& (forall|t: usize| #[trigger] r@.contains(t) <==> reaches(adj, start, t))
            &&& r@.no_duplicates()
            &&& (start < g.node_count() ==> r@.len() >= 1 && r@.contains(start))
            &&& (start >= g.node_count() ==> r@ == Seq::<usize>::empty())
        }),
{
    let ghost adj = if backward {
        g.preds()
    } else {
        g.succs()
    };
    let n = g.len();
    proof {
        assert(adj_wf(adj));
        assert(adj.len() == n);
    }
    if start >= n {
        let r: Vec<usize> = Vec::new();
        proof {
            assert(r@ =~= Seq::<usize>::empty());
            assert forall|t: usize| !(#[trigger] reaches(adj, start, t)) by {
                if reaches(adj, start, t) {
                    let p = choose|p: Seq<usize>| #[trigger]
                        is_walk(adj, p) && p[0] == start && p[p.len() - 1] == t;
                    assert((p[0] as int) < adj.len());
                }
            }
        }
        return r;
    }
    let mut visited: Vec<bool> = Vec::new();
    let mut i: usize = 0;
    while i < n
        invariant
            i <= n,
            visited@.len() == i,
            forall|k: int| 0 <= k < i ==> !(#[trigger] visited@[k]),
        decreases n - i,
    {
        visited.push(false);
        i = i + 1;
    }
    visited[start] = true;
    let mut queue: Vec<usize> = Vec::new();
    queue.push(start);
    let mut out: Vec<usize> = Vec::new();
    proof {
        assert(visited@ =~= init_vis(n as nat, start));
        assert(queue@ =~= seq![start]);
        assert(out@ =~= Seq::<usize>::empty());
        assert(bfs_inv(adj, queue@, visited@));
    }
    while queue.len() > 0
        invariant
            g.wf(),
            n == g.node_count(),
            adj == if backward {
                g.preds()
            } else {
                g.succs()
            },
            adj.len() == n,
            bfs_inv(adj, queue@, visited@),
            bfs_rounds(adj, queue@, visited@, out@) == bfs_result(adj, start),
        decreases count_false(visited@), queue@.len(),
    {
        let ghost q0 = queue@;
        let ghost vis0 = visited@;
        let ghost out0 = out@;
        let v = queue.remove(0);
        proof {
            q0.remove_ensures(0);
            assert(queue@ =~= q0.drop_first());
            lemma_bfs_step(adj, q0, vis0);
        }
        let ghost step = row_admit(adj[v as int], q0.drop_first(), vis0);
        let row = if backward {
            g.predecessors_slice(v)
        } else {
            g.successors_slice(v)
        };
        proof {
            assert(row@ == adj[v as int]);
            assert(row@.skip(0) =~= row@);
            assert(row_admit(row@.skip(0), queue@, visited@) == step);
        }
        out.push(v);
        let mut j: usize = 0;
        while j < row.len()
            invariant
                j <= row@.len(),
                visited@.len() == n,
                forall|k: int| 0 <= k < row@.len() ==> (#[trigger] row@[k]) < n,
                forall|k: int|
                    0 <= k < queue@.len() ==> (#[trigger] queue@[k] as int) < n && visited@[queue@[k] as int],
                row_admit(row@.skip(j as int), queue@, visited@) == step,
            decreases row@.len() - j,
        {
            let w = row[j];
            proof {
                assert(row@.skip(j as int)[0] == row@[j as int]);
                assert(row@.skip(j as int).drop_first() =~= row@.skip(j as int + 1));
            }
            let ghost qa = queue@;
            let ghost visa = visited@;
            if !visited[w] {
                visited[w] = true;
                queue.push(w);
                proof {
                    assert forall|k: int| 0 <= k < queue@.len() implies (#[trigger] queue@[k] as int)
                        < n && visited@[queue@[k] as int] by {
                        if k < queue@.len() - 1 {
                            assert(queue@[k] == qa[k]);
                            assert(visa[qa[k] as int]);
                        }
                    }
                }
            }
            proof {
                assert(row_admit(row@.skip(j as int), qa, visa) == step);
                assert(row_admit(row@.skip(j as int + 1), queue@, visited@) == step);
            }
            j = j + 1;
        }
        proof {
            assert(row@.skip(row@.len() as int) =~= Seq::<usize>::empty());
            assert(queue@ == step.0 && visited@ == step.1);
            assert(out@ == out0.push(v));
            assert(bfs_rounds(adj, q0, vis0, out0) == bfs_rounds(adj, queue@, visited@, out@));
        }
    }
    proof {
        assert(bfs_rounds(adj, queue@, visited@, out@) == out@);
        assert(out@ == bfs_result(adj, start));
        lemma_bfs_result_reachable(adj, start);
        lemma_bfs_rounds_carries(adj, seq![start], init_vis(n as nat, start), Seq::<usize>::empty());
        lemma_bfs_rounds_distinct(adj, seq![start], init_vis(n as nat, start), Seq::<usize>::empty());
        assert(seq![start].contains(start)) by {
            assert(seq![start][0] == start);
        }
        assert(out@.contains(start));
        assert(out@.len() >= 1);
    }
    out
}

/// `v` is marked completed by the closed set; an entry missing from or
/// beyond the bounds of the set counts as not closed.
pub open spec fn closed_in(closed: Seq<bool>, v: usize) -> bool {
    (v as int) < closed.len() && closed[v as int]
}

/// The entries of `s` not marked closed, in their order in `s`.
pub open spec fn open_entries(s: Seq<usize>, closed: Seq<bool>) -> Seq<usize>
    decreases s.len(),
{
    if s.len() == 0 {
        Seq::<usize>::empty()
    } else {
        let rest = open_entries(s.drop_last(), closed);
        if closed_in(closed, s.last()) {
            rest
        } else {
            rest.push(s.last())
        }
    }
}

/// The predecessor list consulted by the analyzer: empty for an
/// out-of-range index, so stale indices degrade gracefully.
pub open spec fn pred_row(g: &DiGraph, node: usize) -> Seq<usize> {
    if node < g.node_count() {
        g.preds()[node as int]
    } else {
        Seq::<usize>::empty()
    }
}

/// Every blocker of `node` is closed (vacuously true without blockers).
pub open spec fn node_actionable(g: &DiGraph, closed: Seq<bool>, node: usize) -> bool {
    forall|i: int|
        0 <= i < pred_row(g, node).len() ==> closed_in(closed, #[trigger] pred_row(g, node)[i])
}

/// The actionable frontier below node `k`: all indices below `k` that are
/// not closed themselves and have every blocker closed, ascending.
pub open spec fn actionable_upto(g: &DiGraph, closed: Seq<bool>, k: int) -> Seq<usize>
    decreases k,
{
    if k <= 0 {
        Seq::<usize>::empty()
    } else {
        let rest = actionable_upto(g, closed, k - 1);
        let v = (k - 1) as usize;
        if !closed_in(closed, v) && node_actionable(g, closed, v) {
            rest.push(v)
        } else {
            rest
        }
    }
}

/// Direct blockers of `node`: its predecessors, in insertion order.
pub fn blockers(g: &DiGraph, node: usize) -> (r: Vec<usize>)
    requires
        g.wf(),
    ensures
        r@ == pred_row(g, node),
{
    g.predecessors_slice(node)
}

/// Direct dependents of `node`: its successors, in insertion order.
pub fn dependents(g: &DiGraph, node: usize) -> (r: Vec<usize>)
    requires
        g.wf(),
    ensures
        r@ == if node < g.node_count() {
            g.succs()[node as int]
        } else {
            Seq::<usize>::empty()
        },
{
    g.successors_slice(node)
}

/// Whether `node` is a valid index and every blocker of it is closed; an
/// out-of-range actionability query yields false.
pub fn is_actionable(g: &DiGraph, node: usize, closed_set: &Vec<bool>) -> (r: bool)
    requires
        g.wf(),
    ensures
        r == (node < g.node_count() && node_actionable(g, closed_set@, node)),
{
    if node >= g.len() {
        return false;
    }
    let row = g.predecessors_slice(node);
    proof {
        assert(row@ == pred_row(g, node));
    }
    let mut i: usize = 0;
    while i < row.len()
        invariant
            g.wf(),
            i <= row@.len(),
            row@ == pred_row(g, node),
            forall|k: int| 0 <= k < i ==> closed_in(closed_set@, #[trigger] row@[k]),
        decreases row@.len() - i,
    {
        let p = row[i];
        if !(p < closed_set.len() && closed_set[p]) {
            proof {
                assert(!closed_in(closed_set@, row@[i as int]));
            }
            return false;
        }
        i = i + 1;
    }
    true
}

/// The actionable frontier: every node that is itself not closed and whose
/// blockers are all closed, in ascending index order.
pub fn actionable_nodes(g: &DiGraph, closed_set: &Vec<bool>) -> (r: Vec<usize>)
    requires
        g.wf(),
    ensures
        r@ == actionable_upto(g, closed_set@, g.node_count() as int),
        forall|x: usize|
            #[trigger] r@.contains(x) <==> x < g.node_count() && !closed_in(closed_set@, x)
                && node_actionable(g, closed_set@, x),
        strictly_increasing(r@),
{
    let n = g.len();
    let mut r: Vec<usize> = Vec::new();
    let mut v: usize = 0;
    proof {
        assert(r@ =~= actionable_upto(g, closed_set@, 0));
    }
    while v < n
        invariant
            g.wf(),
            n == g.node_count(),
            v <= n,
            r@ == actionable_upto(g, closed_set@, v as int),
            forall|k: int| 0 <= k < r@.len() ==> (#[trigger] r@[k]) < v,
            strictly_increasing(r@),
        decreases n - v,
    {
        let ghost r0 = r@;
        let self_open = !(v < closed_set.len() && closed_set[v]);
        if self_open && is_actionable(g, v, closed_set) {
            r.push(v);
            proof {
                assert forall|a: int, b: int| 0 <= a < b < r@.len() implies r@[a] < r@[b] by {
                    if b < r@.len() - 1 {
                        assert(r0[a] < r0[b]);
                    } else {
                        assert(r@[b] == v);
                        assert(r@[a] == r0[a]);
                    }
                }
            }
        }
        proof {
            assert(closed_in(closed_set@, v) == !self_open);
            assert(r@ == actionable_upto(g, closed_set@, v as int + 1));
        }
        v = v + 1;
    }
    proof {
        lemma_actionable_upto_contains(g, closed_set@, n as int);
    }
    r
}

/// Membership in the actionable frontier below `k` is exactly: below `k`,
/// not closed, and every blocker closed.
pub proof fn lemma_actionable_upto_contains(g: &DiGraph, closed: Seq<bool>, k: int)
    requires
        0 <= k <= usize::MAX,
    ensures
        forall|x: usize|
            #[trigger] actionable_upto(g, closed, k).contains(x) <==> (x as int) < k && !closed_in(
                closed,
                x,
            ) && node_actionable(g, closed, x),
    decreases k,
{
    if k > 0 {
        lemma_actionable_upto_contains(g, closed, k - 1);
        let rest = actionable_upto(g, closed, k - 1);
        let v = (k - 1) as usize;
        assert forall|x: usize| #[trigger]
            actionable_upto(g, closed, k).contains(x) implies (x as int) < k && !closed_in(
            closed,
            x,
        ) && node_actionable(g, closed, x) by {
            if !closed_in(closed, v) && node_actionable(g, closed, v) {
                lemma_contains_push(rest, v, x);
            }
        }
        assert forall|x: usize|
            (x as int) < k && !closed_in(closed, x) && node_actionable(g, closed, x) implies
            #[trigger] actionable_upto(g, closed, k).contains(x) by {
            if !closed_in(closed, v) && node_actionable(g, closed, v) {
                lemma_contains_push(rest, v, x);
            } else {
                assert(x != v);
            }
        }
    }
}

/// Open blockers of `node`: its predecessors not marked closed, in
/// predecessor order.
pub fn open_blockers(g: &DiGraph, node: usize, closed_set: &Vec<bool>) -> (r: Vec<usize>)
    requires
        g.wf(),
    ensures
        r@ == open_entries(pred_row(g, node), closed_set@),
{
    let row = g.predecessors_slice(node);
    proof {
        assert(row@ == pred_row(g, node));
        assert(row@.take(0) =~= Seq::<usize>::empty());
    }
    let mut r: Vec<usize> = Vec::new();
    let mut i: usize = 0;
    while i < row.len()
        invariant
            i <= row@.len(),
            row@ == pred_row(g, node),
            r@ == open_entries(row@.take(i as int), closed_set@),
        decreases row@.len() - i,
    {
        let p = row[i];
        proof {
            assert(row@.take(i as int + 1) =~= row@.take(i as int).push(row@[i as int]));
            assert(row@.take(i as int).push(row@[i as int]).drop_last() =~= row@.take(i as int));
        }
        if !(p < closed_set.len() && closed_set[p]) {
            r.push(p);
        }
        i = i + 1;
    }
    proof {
        assert(row@.take(row@.len() as int) =~= row@);
    }
    r
}

/// Number of open blockers of `node`, computed without materializing the
/// filtered list.
pub fn open_blocker_count(g: &DiGraph, node: usize, closed_set: &Vec<bool>) -> (r: usize)
    requires
        g.wf(),
    ensures
        r == open_entries(pred_row(g, node), closed_set@).len(),
{
    let row = g.predecessors_slice(node);
    proof {
        assert(row@ == pred_row(g, node));
        assert(row@.take(0) =~= Seq::<usize>::empty());
    }
    let mut count: usize = 0;
    let mut i: usize = 0;
    while i < row.len()
        invariant
            i <= row@.len(),
            count <= i,
            row@ == pred_row(g, node),
            count == open_entries(row@.take(i as int), closed_set@).len(),
        decreases row@.len() - i,
    {
        let p = row[i];
        proof {
            assert(row@.take(i as int + 1) =~= row@.take(i as int).push(row@[i as int]));
            assert(row@.take(i as int).push(row@[i as int]).drop_last() =~= row@.take(i as int));
        }
        if !(p < closed_set.len() && closed_set[p]) {
            count = count + 1;
        }
        i = i + 1;
    }
    proof {
        assert(row@.take(row@.len() as int) =~= row@);
    }
    count
}

/// Recomputing the actionable frontier with an unchanged closed set yields
/// the identical sequence: the computation is a pure function of the graph
/// and the closed set.
pub proof fn lemma_actionable_nodes_idempotent(
    g: &DiGraph,
    closed: Seq<bool>,
    r1: Seq<usize>,
    r2: Seq<usize>,
)
    requires
        r1 == actionable_upto(g, closed, g.node_count() as int),
        r2 == actionable_upto(g, closed, g.node_count() as int),
    ensures
        r1 == r2,
{
}

proof fn lemma_open_entries_monotone(s: Seq<usize>, c1: Seq<bool>, c2: Seq<bool>)
    requires
        forall|v: usize| #[trigger] closed_in(c1, v) ==> closed_in(c2, v),
    ensures
        open_entries(s, c2).len() <= open_entries(s, c1).len(),
    decreases s.len(),
{
    if s.len() > 0 {
        lemma_open_entries_monotone(s.drop_last(), c1, c2);
    }
}

/// Closing more nodes never increases a node's open-blocker count: with a
/// closed set that covers another one, every node's count is at most its
/// count under the smaller set.
pub proof fn lemma_open_blocker_count_monotone(
    g: &DiGraph,
    node: usize,
    c1: Seq<bool>,
    c2: Seq<bool>,
)
    requires
        forall|v: usize| #[trigger] closed_in(c1, v) ==> closed_in(c2, v),
    ensures
        open_entries(pred_row(g, node), c2).len() <= open_entries(pred_row(g, node), c1).len(),
{
    lemma_open_entries_monotone(pred_row(g, node), c1, c2);
}

} // verus!
