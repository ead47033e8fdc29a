//! Graph store: nodes identified by dense zero-based indices, directed edges
//! kept in bidirectional adjacency lists in insertion order.

use vstd::prelude::*;

verus! {

/// Number of occurrences of `x` in `s`. Self-loops and duplicate edges are
/// permitted by the store, so adjacency consistency is stated over
/// occurrence counts rather than mere membership.
pub open spec fn occurrences(s: Seq<usize>, x: usize) -> nat
    decreases s.len(),
{
    if s.len() == 0 {
        0
    } else {
        occurrences(s.drop_last(), x) + if s.last() == x {
            1nat
        } else {
            0nat
        }
    }
}

pub proof fn lemma_occurrences_push(s: Seq<usize>, y: usize, x: usize)
    ensures
        occurrences(s.push(y), x) == occurrences(s, x) + if y == x {
            1nat
        } else {
            0nat
        },
{
    assert(s.push(y).drop_last() =~= s);
}

pub proof fn lemma_occurrences_contains(s: Seq<usize>, x: usize)
    ensures
        occurrences(s, x) > 0 <==> s.contains(x),
    decreases s.len(),
{
    if s.len() > 0 {
        lemma_occurrences_contains(s.drop_last(), x);
        if s.contains(x) && s.last() != x {
            let i = choose|i: int| 0 <= i < s.len() && s[i] == x;
            assert(s.drop_last()[i] == x);
            assert(s.drop_last().contains(x));
        }
        if s.drop_last().contains(x) {
            let i = choose|i: int| 0 <= i < s.drop_last().len() && s.drop_last()[i] == x;
            assert(s[i] == x);
        }
    }
}

pub proof fn lemma_contains_push(s: Seq<usize>, x: usize, y: usize)
    ensures
        s.push(x).contains(y) <==> s.contains(y) || y == x,
{
    if s.contains(y) {
        let i = choose|i: int| 0 <= i < s.len() && s[i] == y;
        assert(s.push(x)[i] == y);
    }
    if y == x {
        assert(s.push(x)[s.len() as int] == y);
    }
    if s.push(x).contains(y) && y != x {
        let i = choose|i: int| 0 <= i < s.push(x).len() && s.push(x)[i] == y;
        assert(s[i] == y);
    }
}

/// The entries of `q` are in strictly ascending order.
pub open spec fn strictly_increasing(q: Seq<usize>) -> bool {
    forall|i: int, j: int| 0 <= i < j < q.len() ==> q[i] < q[j]
}

/// Directed graph with an opaque label per node. Node indices are assigned
/// densely in insertion order; each edge (u, v) is recorded both as a
/// successor of u and as a predecessor of v.
pub struct DiGraph {
    labels: Vec<String>,
    succ: Vec<Vec<usize>>,
    pred: Vec<Vec<usize>>,
}

impl DiGraph {
    /// Number of nodes; valid indices are exactly [0, node_count).
    pub closed spec fn node_count(&self) -> nat {
        self.labels@.len()
    }

    /// Successor lists, one per node, in edge-insertion order.
    pub closed spec fn succs(&self) -> Seq<Seq<usize>> {
        self.succ@.map_values(|r: Vec<usize>| r@)
    }

    /// Predecessor lists, one per node, in edge-insertion order.
    pub closed spec fn preds(&self) -> Seq<Seq<usize>> {
        self.pred@.map_values(|r: Vec<usize>| r@)
    }

    /// The caller-supplied labels, in insertion order.
    pub closed spec fn label_seq(&self) -> Seq<Seq<char>> {
        self.labels@.map_values(|l: String| l@)
    }

    /// There is an edge from `u` to `v`.
    pub open spec fn edge(&self, u: usize, v: usize) -> bool {
        &&& u < self.node_count()
        &&& v < self.node_count()
        &&& self.succs()[u as int].contains(v)
    }

    /// Graph invariant: one adjacency row per node, all stored indices in
    /// range, and the successor and predecessor rows record the same edge
    /// multiset: (u, v) occurs as often in u's successors as in v's
    /// predecessors.
    pub open spec fn wf(&self) -> bool {
        &&& self.succs().len() == self.node_count()
        &&& self.preds().len() == self.node_count()
        &&& forall|u: int, i: int|
            0 <= u < self.node_count() && 0 <= i < self.succs()[u].len() ==> (
            #[trigger] self.succs()[u][i]) < self.node_count()
        &&& forall|u: int, i: int|
            0 <= u < self.node_count() && 0 <= i < self.preds()[u].len() ==> (
            #[trigger] self.preds()[u][i]) < self.node_count()
        &&& forall|u: usize, v: usize|
            #![trigger occurrences(self.succs()[u as int], v)]
            #![trigger occurrences(self.preds()[v as int], u)]
            u < self.node_count() && v < self.node_count() ==> occurrences(
                self.succs()[u as int],
                v,
            ) == occurrences(self.preds()[v as int], u)
    }

    /// Create an empty graph.
    pub fn new() -> (g: DiGraph)
        ensures
            g.wf(),
            g.node_count() == 0,
            g.succs() == Seq::<Seq<usize>>::empty(),
            g.preds() == Seq::<Seq<usize>>::empty(),
            g.label_seq() == Seq::<Seq<char>>::empty(),
    {
        let g = DiGraph { labels: Vec::new(), succ: Vec::new(), pred: Vec::new() };
        proof {
            assert(g.succs() =~= Seq::<Seq<usize>>::empty());
            assert(g.preds() =~= Seq::<Seq<usize>>::empty());
            assert(g.label_seq() =~= Seq::<Seq<char>>::empty());
        }
        g
    }

    /// Append a node carrying `label`; its index is the previous node count.
    pub fn add_node(&mut self, label: String) -> (idx: usize)
        requires
            old(self).wf(),
        ensures
            final(self).wf(),
            idx == old(self).node_count(),
            final(self).node_count() == old(self).node_count() + 1,
            final(self).label_seq() == old(self).label_seq().push(label@),
            final(self).succs() == old(self).succs().push(Seq::<usize>::empty()),
            final(self).preds() == old(self).preds().push(Seq::<usize>::empty()),
    {
        let idx = self.labels.len();
        let ghost g0 = *self;
        self.labels.push(label);
        self.succ.push(Vec::new());
        self.pred.push(Vec::new());
        proof {
            assert(self.label_seq() =~= g0.label_seq().push(label@));
            assert(self.succs() =~= g0.succs().push(Seq::<usize>::empty()));
            assert(self.preds() =~= g0.preds().push(Seq::<usize>::empty()));
            let n1 = self.node_count();
            assert forall|u: usize, v: usize| u < n1 && v < n1 implies occurrences(
                #[trigger] self.succs()[u as int],
                v,
            ) == occurrences(#[trigger] self.preds()[v as int], u) by {
                if u < g0.node_count() && v < g0.node_count() {
                    assert(occurrences(g0.succs()[u as int], v) == occurrences(
                        g0.preds()[v as int],
                        u,
                    ));
                } else {
                    if u < g0.node_count() {
                        // v is the new node: it occurs in no old successor row.
                        lemma_occurrences_contains(self.succs()[u as int], v);
                    }
                    if v < g0.node_count() {
                        lemma_occurrences_contains(self.preds()[v as int], u);
                    }
                }
            }
        }
        idx
    }

    /// Append the edge (u, v): v joins u's successors, u joins v's
    /// predecessors. Out-of-range endpoints are a construction-time contract
    /// violation, so valid indices are required of the caller.
    pub fn add_edge(&mut self, u: usize, v: usize)
        requires
            old(self).wf(),
            u < old(self).node_count(),
            v < old(self).node_count(),
        ensures
            final(self).wf(),
            final(self).node_count() == old(self).node_count(),
            final(self).label_seq() == old(self).label_seq(),
            final(self).succs() == old(self).succs().update(
                u as int,
                old(self).succs()[u as int].push(v),
            ),
            final(self).preds() == old(self).preds().update(
                v as int,
                old(self).preds()[v as int].push(u),
            ),
    {
        let ghost g0 = *self;
        self.succ[u].push(v);
        self.pred[v].push(u);
        proof {
            assert(self.succs() =~= g0.succs().update(u as int, g0.succs()[u as int].push(v)));
            assert(self.preds() =~= g0.preds().update(v as int, g0.preds()[v as int].push(u)));
            let n = self.node_count();
            assert forall|a: usize, b: usize| a < n && b < n implies occurrences(
                #[trigger] self.succs()[a as int],
                b,
            ) == occurrences(#[trigger] self.preds()[b as int], a) by {
                assert(occurrences(g0.succs()[a as int], b) == occurrences(
                    g0.preds()[b as int],
                    a,
                ));
                lemma_occurrences_push(g0.succs()[u as int], v, b);
                lemma_occurrences_push(g0.preds()[v as int], u, a);
            }
        }
    }

    /// Number of nodes.
    pub fn len(&self) -> (n: usize)
        ensures
            n == self.node_count(),
    {
        self.labels.len()
    }

    /// Successors of `u` in insertion order; empty for an out-of-range index.
    pub fn successors_slice(&self, u: usize) -> (r: Vec<usize>)
        requires
            self.wf(),
        ensures
            r@ == if u < self.node_count() {
                self.succs()[u as int]
            } else {
                Seq::<usize>::empty()
            },
    {
        if u < self.succ.len() {
            let row = &self.succ[u];
            let mut r: Vec<usize> = Vec::new();
            let mut i: usize = 0;
            while i < row.len()
                invariant
                    i <= row.len(),
                    r@ =~= row@.take(i as int),
                decreases row.len() - i,
            {
                r.push(row[i]);
                i = i + 1;
            }
            proof {
                assert(row@.take(row@.len() as int) =~= row@);
            }
            r
        } else {
            Vec::new()
        }
    }

    /// Predecessors of `v` in insertion order; empty for an out-of-range
    /// index.
    pub fn predecessors_slice(&self, v: usize) -> (r: Vec<usize>)
        requires
            self.wf(),
        ensures
            r@ == if v < self.node_count() {
                self.preds()[v as int]
            } else {
                Seq::<usize>::empty()
            },
    {
        if v < self.pred.len() {
            let row = &self.pred[v];
            let mut r: Vec<usize> = Vec::new();
            let mut i: usize = 0;
            while i < row.len()
                invariant
                    i <= row.len(),
                    r@ =~= row@.take(i as int),
                decreases row.len() - i,
            {
                r.push(row[i]);
                i = i + 1;
            }
            proof {
                assert(row@.take(row@.len() as int) =~= row@);
            }
            r
        } else {
            Vec::new()
        }
    }

    /// Number of predecessors of `u`; 0 for an out-of-range index.
    pub fn in_degree(&self, u: usize) -> (d: usize)
        requires
            self.wf(),
        ensures
            d == if u < self.node_count() {
                self.preds()[u as int].len()
            } else {
                0nat
            },
    {
        if u < self.pred.len() {
            self.pred[u].len()
        } else {
            0
        }
    }

    /// Number of successors of `u`; 0 for an out-of-range index.
    pub fn out_degree(&self, u: usize) -> (d: usize)
        requires
            self.wf(),
        ensures
            d == if u < self.node_count() {
                self.succs()[u as int].len()
            } else {
                0nat
            },
    {
        if u < self.succ.len() {
            self.succ[u].len()
        } else {
            0
        }
    }
}

} // verus!
