//! A directed acyclic graph held in a single arena of nodes.
//!
//! Nodes are addressed by stable integer handles; handle 0 is the root,
//! created at construction and never removed. Each node records its value
//! and the handles of its children and parents. Mutation is limited to
//! appending a fresh node under an existing parent (`add_new`) and adding
//! an extra edge between two existing nodes (`add_link`); a link that
//! would close a cycle is rejected before anything is changed.

use vstd::prelude::*;

use crate::order::ValueEq;

verus! {

/// The rejection returned when a requested link would close a cycle.
#[derive(Clone, Copy, Debug, PartialEq, Eq, Structural)]
pub enum DagError {
    Cycle,
}

struct DAGNode<T> {
    value: T,
    children: Vec<usize>,
    parents: Vec<usize>,
}

/// A growable arena of nodes forming a directed acyclic graph.
pub struct DAG<T> {
    structure: Vec<DAGNode<T>>,
}

/// Whether the handle list `s` holds the handle `i`.
spec fn in_list(s: Seq<usize>, i: int) -> bool {
    exists|k: int| 0 <= k < s.len() && s[k] as int == i
}

/// The handle list as mathematical integers.
spec fn as_ints(s: Seq<usize>) -> Seq<int> {
    s.map_values(|u: usize| u as int)
}

/// How many entries of a flag sequence are still unset.
spec fn num_false(s: Seq<bool>) -> nat
    decreases s.len(),
{
    if s.len() == 0 {
        0
    } else {
        num_false(s.drop_last()) + (if s.last() {
            0nat
        } else {
            1nat
        })
    }
}

proof fn lemma_num_false_update(s: Seq<bool>, i: int)
    requires
        0 <= i < s.len(),
        !s[i],
    ensures
        num_false(s.update(i, true)) + 1 == num_false(s),
    decreases s.len(),
{
    let t = s.update(i, true);
    if i == s.len() - 1 {
        assert(t.drop_last() =~= s.drop_last());
    } else {
        assert(t.drop_last() =~= s.drop_last().update(i, true));
        lemma_num_false_update(s.drop_last(), i);
    }
}

impl<T> DAG<T> {
    /// How many nodes the graph holds.
    pub closed spec fn node_count(self) -> nat {
        self.structure@.len()
    }

    /// Whether `i` is the handle of a node.
    pub open spec fn valid_index(self, i: int) -> bool {
        0 <= i < self.node_count()
    }

    /// The value stored at handle `i`.
    pub closed spec fn value_at(self, i: int) -> T {
        self.structure@[i].value
    }

    /// The children of the node at `i`, in insertion order.
    pub closed spec fn children_at(self, i: int) -> Seq<int> {
        self.structure@[i].children@.map_values(|c: usize| c as int)
    }

    /// The parents of the node at `i`, in insertion order.
    pub closed spec fn parents_at(self, i: int) -> Seq<int> {
        self.structure@[i].parents@.map_values(|c: usize| c as int)
    }

    /// Whether the graph has a child edge from `i` to `j`.
    pub open spec fn edge(self, i: int, j: int) -> bool {
        self.valid_index(i) && self.children_at(i).contains(j)
    }

    /// Whether `p` is a walk along child edges.
    pub open spec fn is_path(self, p: Seq<int>) -> bool {
        &&& p.len() >= 1
        &&& forall|k: int| 0 <= k < p.len() ==> self.valid_index(#[trigger] p[k])
        &&& forall|k: int| 0 <= k < p.len() - 1 ==> self.edge(#[trigger] p[k], p[k + 1])
    }

    /// Whether some walk along child edges leads from `i` to `j`
    /// (trivially true when `i == j` and `i` is a node).
    pub open spec fn reaches(self, i: int, j: int) -> bool {
        exists|p: Seq<int>| self.is_path(p) && p.first() == i && p.last() == j
    }

    /// Whether a walk of at least one edge leads from `i` to `j`:
    /// `i` is a proper ancestor of `j`.
    pub open spec fn descends(self, i: int, j: int) -> bool {
        exists|p: Seq<int>|
            self.is_path(p) && p.first() == i && p.last() == j && p.len() >= 2
    }

    /// Whether some node holds the value `v`.
    pub open spec fn has_value(self, v: T) -> bool {
        exists|i: int| self.valid_index(i) && self.value_at(i) == v
    }

    /// The handle of the node holding `v` (meaningful when values are
    /// distinct and `v` is present).
    pub open spec fn idx_of(self, v: T) -> int {
        choose|i: int| self.valid_index(i) && self.value_at(i) == v
    }

    /// Every child and parent list mentions only node handles.
    pub open spec fn handles_in_range(self) -> bool {
        &&& forall|i: int, k: int|
            self.valid_index(i) && 0 <= k < self.children_at(i).len() ==> self.valid_index(
                #[trigger] self.children_at(i)[k],
            )
        &&& forall|i: int, k: int|
            self.valid_index(i) && 0 <= k < self.parents_at(i).len() ==> self.valid_index(
                #[trigger] self.parents_at(i)[k],
            )
    }

    /// Values are pairwise distinct across the graph.
    pub open spec fn distinct_values(self) -> bool {
        forall|i: int, j: int|
            self.valid_index(i) && self.valid_index(j) && i != j ==> #[trigger] self.value_at(i)
                != #[trigger] self.value_at(j)
    }

    /// The parent lists mirror the child lists.
    pub open spec fn mirrored(self) -> bool {
        forall|i: int, j: int|
            #![trigger self.children_at(i).contains(j)]
            #![trigger self.parents_at(j).contains(i)]
            self.valid_index(i) && self.valid_index(j) ==> (self.children_at(i).contains(j)
                <==> self.parents_at(j).contains(i))
    }

    /// Every node is reachable from the root.
    pub open spec fn rooted(self) -> bool {
        forall|i: int| self.valid_index(i) ==> #[trigger] self.reaches(0, i)
    }

    /// No node is a proper ancestor of itself.
    pub open spec fn acyclic(self) -> bool {
        forall|i: int| !#[trigger] self.descends(i, i)
    }

    /// The graph invariant: a root exists, handles are in range, values
    /// are distinct, parent and child lists mirror one another, all nodes
    /// hang under the root, and the child relation is acyclic.
    pub open spec fn wf(self) -> bool {
        &&& self.node_count() >= 1
        &&& self.handles_in_range()
        &&& self.distinct_values()
        &&& self.mirrored()
        &&& self.rooted()
        &&& self.acyclic()
    }

    /// A node that can witness the ancestor search behind `lca`: a proper
    /// ancestor of the node holding `a` from whose subtree the node
    /// holding `b` can be reached.
    pub open spec fn lca_candidate(self, anc: int, a: T, b: T) -> bool {
        &&& self.valid_index(anc)
        &&& self.descends(anc, self.idx_of(a))
        &&& self.reaches(anc, self.idx_of(b))
    }

    /// A row of `n` unset flags: the starting state of the searches.
    spec fn no_marks(n: nat) -> Seq<bool> {
        Seq::new(n, |i: int| false)
    }

    /// One round of the ancestor expansion behind `lca`: scan `parents`
    /// in list order, and queue and mark each handle not yet marked.
    spec fn expand(marked: Seq<bool>, queue: Seq<int>, parents: Seq<int>) -> (Seq<bool>, Seq<
        int,
    >)
        decreases parents.len(),
    {
        if parents.len() == 0 {
            (marked, queue)
        } else {
            let p = parents[0];
            if 0 <= p < marked.len() && !marked[p] {
                Self::expand(marked.update(p, true), queue.push(p), parents.drop_first())
            } else {
                Self::expand(marked, queue, parents.drop_first())
            }
        }
    }

    /// Expansion marks exactly the handles it queues: the number of
    /// unmarked handles drops by as much as the queue grows.
    proof fn lemma_expand_measure(marked: Seq<bool>, queue: Seq<int>, parents: Seq<int>)
        ensures
            ({
                let next = Self::expand(marked, queue, parents);
                &&& next.0.len() == marked.len()
                &&& next.1.len() >= queue.len()
                &&& num_false(next.0) + next.1.len() == num_false(marked) + queue.len()
            }),
        decreases parents.len(),
    {
        if parents.len() > 0 {
            let p = parents[0];
            if 0 <= p < marked.len() && !marked[p] {
                lemma_num_false_update(marked, p);
                Self::lemma_expand_measure(
                    marked.update(p, true),
                    queue.push(p),
                    parents.drop_first(),
                );
            } else {
                Self::lemma_expand_measure(marked, queue, parents.drop_first());
            }
        }
    }

    /// The breadth-first ancestor walk behind `lca`: handles are taken
    /// from the queue in order; each queues its unmarked parents, then
    /// answers if the node `t` lies in its subtree.
    spec fn bfs_from(self, marked: Seq<bool>, queue: Seq<int>, head: int, t: int) -> Option<
        int,
    >
        decreases num_false(marked), queue.len() - head,
        via Self::bfs_from_decreases
    {
        if head < 0 || head >= queue.len() {
            None
        } else {
            let cur = queue[head];
            let next = Self::expand(marked, queue, self.parents_at(cur));
            if self.reaches(cur, t) {
                Some(cur)
            } else {
                self.bfs_from(next.0, next.1, head + 1, t)
            }
        }
    }

    #[via_fn]
    proof fn bfs_from_decreases(self, marked: Seq<bool>, queue: Seq<int>, head: int, t: int) {
        if 0 <= head < queue.len() {
            Self::lemma_expand_measure(marked, queue, self.parents_at(queue[head]));
        }
    }

    /// What `lca` returns: an absent value gives an absent result; a
    /// value shared by both arguments answers for itself; otherwise the
    /// ancestors of `a`'s node are walked breadth-first, seeded with its
    /// parents in list order, each dequeued ancestor queueing its own
    /// not-yet-seen parents, and the first one from whose subtree `b`'s
    /// node can be reached answers. In diamond-shaped graphs this
    /// documented heuristic need not name the unique minimal common
    /// ancestor.
    pub closed spec fn lca_heuristic(self, a: T, b: T) -> Option<T> {
        if !self.has_value(a) || !self.has_value(b) {
            None
        } else if self.idx_of(a) == self.idx_of(b) {
            Some(a)
        } else {
            let seed = Self::expand(
                Self::no_marks(self.node_count()),
                Seq::empty(),
                self.parents_at(self.idx_of(a)),
            );
            match self.bfs_from(seed.0, seed.1, 0, self.idx_of(b)) {
                None => None,
                Some(anc) => Some(self.value_at(anc)),
            }
        }
    }

    /// What `add_new(parent, value)` does to a graph: nothing when the
    /// value is already present or the parent is missing, otherwise a new
    /// node holding `value` is appended with the parent's node as its one
    /// parent, and the new handle is appended to the parent's children.
    pub open spec fn add_new_effect(pre: Self, post: Self, parent: T, value: T) -> bool {
        if pre.has_value(value) {
            post == pre
        } else if !pre.has_value(parent) {
            post == pre
        } else {
            let p = pre.idx_of(parent);
            let n = pre.node_count() as int;
            &&& post.node_count() == n + 1
            &&& post.value_at(n) == value
            &&& post.children_at(n) == Seq::<int>::empty()
            &&& post.parents_at(n) == seq![p]
            &&& forall|i: int| 0 <= i < n ==> post.value_at(i) == pre.value_at(i)
            &&& forall|i: int| 0 <= i < n ==> post.parents_at(i) == pre.parents_at(i)
            &&& forall|i: int|
                0 <= i < n && i != p ==> post.children_at(i) == pre.children_at(i)
            &&& post.children_at(p) == pre.children_at(p).push(n)
        }
    }

    /// What `add_link(parent, child)` does to a graph: nothing when the
    /// two values are equal or either is missing; a rejection and no
    /// change when the link would close a cycle; otherwise one child
    /// entry and one mirroring parent entry are appended.
    pub open spec fn add_link_effect(
        pre: Self,
        post: Self,
        parent: T,
        child: T,
        r: Result<(), DagError>,
    ) -> bool {
        if parent == child {
            r is Ok && post == pre
        } else if !pre.has_value(parent) || !pre.has_value(child) {
            r is Ok && post == pre
        } else {
            let f = pre.idx_of(parent);
            let t = pre.idx_of(child);
            if pre.reaches(t, f) {
                r == Result::<(), DagError>::Err(DagError::Cycle) && post == pre
            } else {
                &&& r is Ok
                &&& post.node_count() == pre.node_count()
                &&& forall|i: int|
                    0 <= i < pre.node_count() ==> post.value_at(i) == pre.value_at(i)
                &&& forall|i: int|
                    0 <= i < pre.node_count() && i != f ==> post.children_at(i)
                        == pre.children_at(i)
                &&& forall|i: int|
                    0 <= i < pre.node_count() && i != t ==> post.parents_at(i)
                        == pre.parents_at(i)
                &&& post.children_at(f) == pre.children_at(f).push(t)
                &&& post.parents_at(t) == pre.parents_at(t).push(f)
            }
        }
    }

    /// In a well-formed graph no handle is reachable from itself along
    /// child edges by a walk of at least one edge.
    pub proof fn lemma_wf_acyclic(self, i: int)
        requires
            self.wf(),
        ensures
            !self.descends(i, i),
    {
    }

    /// One `add_new` call grows the node count by one exactly when the
    /// value was new and the parent was present, and leaves the graph
    /// count unchanged otherwise.
    pub proof fn lemma_add_new_count(pre: Self, post: Self, parent: T, value: T)
        requires
            Self::add_new_effect(pre, post, parent, value),
        ensures
            post.node_count() == pre.node_count() + (if !pre.has_value(value)
                && pre.has_value(parent) {
                1nat
            } else {
                0nat
            }),
    {
    }

    /// Whether `graphs` records a run of `add_new` calls: it starts with
    /// some graph and holds after each call the graph that call left,
    /// where the call `k` passed the parent `calls[k].0` and the value
    /// `calls[k].1`.
    pub open spec fn add_new_chain(graphs: Seq<Self>, calls: Seq<(T, T)>) -> bool {
        &&& graphs.len() == calls.len() + 1
        &&& forall|k: int|
            0 <= k < calls.len() ==> Self::add_new_effect(
                graphs[k],
                graphs[k + 1],
                (#[trigger] calls[k]).0,
                calls[k].1,
            )
    }

    /// How many calls of a run were accepted: those whose value was new
    /// and whose parent was present at the time of the call.
    pub open spec fn num_accepted(graphs: Seq<Self>, calls: Seq<(T, T)>) -> nat
        decreases calls.len(),
    {
        if calls.len() == 0 {
            0
        } else {
            Self::num_accepted(graphs.drop_last(), calls.drop_last()) + (if !graphs[
                calls.len() - 1
            ].has_value(calls.last().1) && graphs[calls.len() - 1].has_value(calls.last().0) {
                1nat
            } else {
                0nat
            })
        }
    }

    /// After any run of `add_new` calls the node count is the starting
    /// count plus the number of accepted insertions; a graph built by
    /// `new` starts at one node, the root.
    pub proof fn lemma_add_new_chain_count(graphs: Seq<Self>, calls: Seq<(T, T)>)
        requires
            Self::add_new_chain(graphs, calls),
        ensures
            graphs.last().node_count() == graphs.first().node_count() + Self::num_accepted(
                graphs,
                calls,
            ),
        decreases calls.len(),
    {
        if calls.len() == 0 {
        } else {
            let gs = graphs.drop_last();
            let cs = calls.drop_last();
            assert forall|k: int| 0 <= k < cs.len() implies Self::add_new_effect(
                gs[k],
                gs[k + 1],
                (#[trigger] cs[k]).0,
                cs[k].1,
            ) by {
                assert(cs[k] == calls[k]);
                assert(gs[k] == graphs[k] && gs[k + 1] == graphs[k + 1]);
            }
            Self::lemma_add_new_chain_count(gs, cs);
            let n = calls.len() - 1;
            assert(Self::add_new_effect(graphs[n], graphs[n + 1], calls[n].0, calls[n].1));
            Self::lemma_add_new_count(graphs[n], graphs[n + 1], calls[n].0, calls[n].1);
            assert(gs.last() == graphs[n]);
            assert(graphs.last() == graphs[n + 1]);
        }
    }

    /// Repeating `add_new` with the same value changes nothing: the
    /// second call leaves the graph exactly as the first left it.
    pub proof fn lemma_add_new_idempotent(g0: Self, g1: Self, g2: Self, parent: T, value: T)
        requires
            Self::add_new_effect(g0, g1, parent, value),
            Self::add_new_effect(g1, g2, parent, value),
        ensures
            g2 == g1,
    {
        if g0.has_value(value) {
        } else if !g0.has_value(parent) {
        } else {
            let n = g0.node_count() as int;
            assert(g1.valid_index(n) && g1.value_at(n) == value);
            assert(g1.has_value(value));
        }
    }

    /// A node with value `v` at handle `i` is the node `idx_of(v)` names.
    pub proof fn lemma_value_index(self, i: int, v: T)
        requires
            self.distinct_values(),
            self.valid_index(i),
            self.value_at(i) == v,
        ensures
            self.has_value(v),
            self.idx_of(v) == i,
    {
        assert(self.valid_index(i) && self.value_at(i) == v);
        let k = self.idx_of(v);
        assert(self.valid_index(k) && self.value_at(k) == v) by {
            assert(exists|j: int| self.valid_index(j) && self.value_at(j) == v);
        }
    }

    /// Every node reaches itself by the trivial walk.
    pub proof fn lemma_reaches_self(self, i: int)
        requires
            self.valid_index(i),
        ensures
            self.reaches(i, i),
    {
        let p = seq![i];
        assert(self.is_path(p) && p.first() == i && p.last() == i);
    }

    /// Walks compose: a walk to `j` followed by a walk from `j` gives a
    /// walk all the way.
    pub proof fn lemma_reaches_trans(self, i: int, j: int, k: int)
        requires
            self.reaches(i, j),
            self.reaches(j, k),
        ensures
            self.reaches(i, k),
            i != j || j != k ==> self.descends(i, k),
    {
        let p = choose|p: Seq<int>| self.is_path(p) && p.first() == i && p.last() == j;
        let q = choose|q: Seq<int>| self.is_path(q) && q.first() == j && q.last() == k;
        let r = p + q.drop_first();
        assert(r.len() == p.len() + q.len() - 1);
        assert forall|m: int| 0 <= m < r.len() implies self.valid_index(#[trigger] r[m]) by {
            if m < p.len() {
                assert(r[m] == p[m]);
            } else {
                assert(r[m] == q[m - p.len() + 1]);
            }
        }
        assert forall|m: int| 0 <= m < r.len() - 1 implies self.edge(#[trigger] r[m], r[m + 1]) by {
            if m < p.len() - 1 {
                assert(r[m] == p[m] && r[m + 1] == p[m + 1]);
            } else if m == p.len() - 1 {
                assert(r[m] == p.last() && p.last() == j && q.first() == j);
                if q.len() >= 2 {
                    assert(r[m + 1] == q[1]);
                    assert(self.edge(q[0], q[1]));
                }
            } else {
                assert(r[m] == q[m - p.len() + 1] && r[m + 1] == q[m - p.len() + 2]);
            }
        }
        assert(r.first() == i && r.last() == k);
        assert(self.is_path(r));
        if i != j {
            assert(p.len() >= 2);
            assert(r.len() >= 2);
        } else if j != k {
            assert(q.len() >= 2);
            assert(r.len() >= 2);
        }
    }

    /// An edge is a walk of one step.
    pub proof fn lemma_edge_reaches(self, i: int, j: int)
        requires
            self.edge(i, j),
            self.valid_index(j),
        ensures
            self.reaches(i, j),
            self.descends(i, j),
    {
        let p = seq![i, j];
        assert(p.first() == i && p.last() == j);
        assert forall|k: int| 0 <= k < p.len() implies self.valid_index(#[trigger] p[k]) by {}
        assert forall|k: int| 0 <= k < p.len() - 1 implies self.edge(#[trigger] p[k], p[k + 1]) by {}
        assert(self.is_path(p));
    }

    /// A walk of at least one edge is in particular a walk.
    pub proof fn lemma_descends_reaches(self, i: int, j: int)
        requires
            self.descends(i, j),
        ensures
            self.reaches(i, j),
    {
        let p = choose|p: Seq<int>|
            self.is_path(p) && p.first() == i && p.last() == j && p.len() >= 2;
        assert(self.is_path(p) && p.first() == i && p.last() == j);
    }

    /// An edge followed by a walk is a walk of at least one edge.
    pub proof fn lemma_edge_then_reaches(self, i: int, j: int, k: int)
        requires
            self.edge(i, j),
            self.reaches(j, k),
        ensures
            self.descends(i, k),
            self.reaches(i, k),
    {
        let q = choose|q: Seq<int>| self.is_path(q) && q.first() == j && q.last() == k;
        let r = seq![i] + q;
        assert(r[0] == i);
        assert forall|m: int| 0 <= m < r.len() implies self.valid_index(#[trigger] r[m]) by {
            if m >= 1 {
                assert(r[m] == q[m - 1]);
            }
        }
        assert forall|m: int| 0 <= m < r.len() - 1 implies self.edge(#[trigger] r[m], r[m + 1]) by {
            if m == 0 {
                assert(r[1] == q[0]);
            } else {
                assert(r[m] == q[m - 1] && r[m + 1] == q[m]);
            }
        }
        assert(self.is_path(r) && r.first() == i && r.last() == k && r.len() >= 2);
    }

    /// A walk in a graph whose edges extend this graph's by the one edge
    /// `(f, t)` decomposes into walks of this graph.
    proof fn lemma_new_edge_decompose(self, post: DAG<T>, f: int, t: int, p: Seq<int>)
        requires
            post.is_path(p),
            post.node_count() == self.node_count(),
            self.valid_index(f),
            forall|i: int, j: int|
                #[trigger] post.edge(i, j) ==> self.edge(i, j) || (i == f && j == t),
        ensures
            self.reaches(p.first(), p.last()) || (self.reaches(p.first(), f) && self.reaches(
                t,
                p.last(),
            )),
            p.len() >= 2 ==> self.descends(p.first(), p.last()) || (self.reaches(p.first(), f)
                && self.reaches(t, p.last())),
        decreases p.len(),
    {
        if p.len() == 1 {
            assert(post.valid_index(p[0]));
            self.lemma_reaches_self(p.first());
        } else {
            let q = p.drop_first();
            assert forall|k: int| 0 <= k < q.len() implies post.valid_index(#[trigger] q[k]) by {
                assert(q[k] == p[k + 1]);
            }
            assert forall|k: int| 0 <= k < q.len() - 1 implies post.edge(
                #[trigger] q[k],
                q[k + 1],
            ) by {
                assert(q[k] == p[k + 1] && q[k + 1] == p[k + 2]);
            }
            assert(post.is_path(q));
            self.lemma_new_edge_decompose(post, f, t, q);
            assert(post.edge(p[0], p[1]));
            assert(q.first() == p[1] && q.last() == p.last());
            if self.edge(p[0], p[1]) {
                if self.reaches(p[1], p.last()) {
                    self.lemma_edge_then_reaches(p[0], p[1], p.last());
                } else {
                    assert(self.reaches(p[1], f) && self.reaches(t, p.last()));
                    self.lemma_edge_then_reaches(p[0], p[1], f);
                }
            } else {
                assert(p[0] == f && p[1] == t);
                self.lemma_reaches_self(f);
                assert(self.reaches(t, p.last()));
            }
        }
    }

    /// A walk in a graph remains a walk in a graph with at least the same
    /// nodes and edges.
    pub proof fn lemma_path_preserved(self, post: DAG<T>, p: Seq<int>)
        requires
            self.is_path(p),
            post.node_count() >= self.node_count(),
            forall|i: int, j: int| #[trigger] self.edge(i, j) ==> post.edge(i, j),
        ensures
            post.is_path(p),
    {
        assert forall|k: int| 0 <= k < p.len() implies post.valid_index(#[trigger] p[k]) by {
            assert(self.valid_index(p[k]));
        }
    }

    /// Reachability survives adding nodes and edges.
    pub proof fn lemma_reaches_preserved(self, post: DAG<T>, i: int, j: int)
        requires
            self.reaches(i, j),
            post.node_count() >= self.node_count(),
            forall|i: int, j: int| #[trigger] self.edge(i, j) ==> post.edge(i, j),
        ensures
            post.reaches(i, j),
    {
        let p = choose|p: Seq<int>| self.is_path(p) && p.first() == i && p.last() == j;
        self.lemma_path_preserved(post, p);
    }
}

/// A sequence with one more entry holds exactly the old entries and the
/// new one.
proof fn lemma_push_contains(s: Seq<int>, x: int, y: int)
    ensures
        s.push(x).contains(y) <==> (s.contains(y) || y == x),
{
    if s.contains(y) {
        let k = choose|k: int| 0 <= k < s.len() && s[k] == y;
        assert(s.push(x)[k] == y);
    }
    if y == x {
        assert(s.push(x)[s.len() as int] == y);
    }
    if s.push(x).contains(y) {
        let k = choose|k: int| 0 <= k < s.push(x).len() && s.push(x)[k] == y;
        if k < s.len() {
            assert(s[k] == y);
        }
    }
}

/// A vector of `n` unset flags.
fn make_flags(n: usize) -> (v: Vec<bool>)
    ensures
        v@.len() == n,
        forall|i: int| 0 <= i < n ==> !v@[i],
{
    let mut v: Vec<bool> = Vec::new();
    while v.len() < n
        invariant
            v@.len() <= n,
            forall|i: int| 0 <= i < v@.len() ==> !v@[i],
        decreases n - v@.len(),
    {
        v.push(false);
    }
    v
}

impl<T> DAG<T> {
    /// A flag set that holds the start of a walk and is closed under
    /// child edges holds the walk's end.
    proof fn lemma_closed_reach(self, v: Seq<bool>, p: Seq<int>)
        requires
            self.is_path(p),
            v.len() == self.node_count(),
            v[p.first()],
            forall|i: int, j: int|
                0 <= i < v.len() && v[i] && #[trigger] self.edge(i, j) ==> 0 <= j < v.len()
                    && v[j],
        ensures
            0 <= p.last() < v.len() && v[p.last()],
        decreases p.len(),
    {
        if p.len() == 1 {
            assert(p.last() == p.first());
        } else {
            assert(self.edge(p[0], p[1]));
            let q = p.drop_first();
            assert forall|k: int| 0 <= k < q.len() implies self.valid_index(#[trigger] q[k]) by {
                assert(q[k] == p[k + 1]);
            }
            assert forall|k: int| 0 <= k < q.len() - 1 implies self.edge(
                #[trigger] q[k],
                q[k + 1],
            ) by {
                assert(q[k] == p[k + 1] && q[k + 1] == p[k + 2]);
            }
            assert(v[q.first()]);
            self.lemma_closed_reach(v, q);
        }
    }
}

impl<T> DAG<T> {
    /// A flag set holding all direct parents of `a` and closed under
    /// parent steps holds every proper ancestor of `a`.
    proof fn lemma_ancestors_marked(self, m: Seq<bool>, a: int, p: Seq<int>)
        requires
            self.is_path(p),
            p.len() >= 2,
            p.last() == a,
            m.len() == self.node_count(),
            forall|q: int| #[trigger] self.edge(q, a) ==> 0 <= q < m.len() && m[q],
            forall|i: int, q: int|
                0 <= i < m.len() && m[i] && #[trigger] self.edge(q, i) ==> 0 <= q < m.len()
                    && m[q],
        ensures
            0 <= p.first() < m.len() && m[p.first()],
        decreases p.len(),
    {
        if p.len() == 2 {
            assert(self.edge(p[0], p[1]));
        } else {
            let q = p.drop_first();
            assert forall|k: int| 0 <= k < q.len() implies self.valid_index(#[trigger] q[k]) by {
                assert(q[k] == p[k + 1]);
            }
            assert forall|k: int| 0 <= k < q.len() - 1 implies self.edge(
                #[trigger] q[k],
                q[k + 1],
            ) by {
                assert(q[k] == p[k + 1] && q[k + 1] == p[k + 2]);
            }
            assert(self.is_path(q));
            self.lemma_ancestors_marked(m, a, q);
            assert(self.edge(p[0], p[1]));
            assert(m[q.first()]);
        }
    }
}

impl<T: ValueEq> DAG<T> {
    /// Depth-first search of the subtree under `start` for a node whose
    /// value equals `value`, along child edges, with an explicit stack.
    #[verifier::loop_isolation(false)]
    fn search_from(&self, start: usize, value: &T) -> (r: Option<usize>)
        requires
            self.wf(),
            (start as int) < self.node_count(),
        ensures
            match r {
                Some(i) => (i as int) < self.node_count() && self.value_at(i as int) == *value
                    && self.reaches(start as int, i as int),
                None => forall|j: int|
                    #[trigger] self.reaches(start as int, j) ==> self.value_at(j) != *value,
            },
    {
        let n = self.structure.len();
        let mut visited = make_flags(n);
        visited[start] = true;
        proof {
            self.lemma_reaches_self(start as int);
        }
        let mut stack: Vec<usize> = Vec::new();
        stack.push(start);
        proof {
            assert(stack@[0] == start);
            assert(in_list(stack@, start as int));
        }
        while stack.len() > 0
            invariant
                visited@.len() == n,
                visited@[start as int],
                forall|k: int|
                    0 <= k < stack@.len() ==> ((#[trigger] stack@[k]) as int) < n
                        && visited@[stack@[k] as int] && self.reaches(
                        start as int,
                        stack@[k] as int,
                    ),
                forall|i: int|
                    0 <= i < n && #[trigger] visited@[i] ==> self.reaches(start as int, i),
                forall|i: int|
                    0 <= i < n && #[trigger] visited@[i] && !in_list(stack@, i)
                        ==> self.value_at(i) != *value,
                forall|i: int, j: int|
                    0 <= i < n && visited@[i] && !in_list(stack@, i) && #[trigger] self.edge(
                        i,
                        j,
                    ) ==> visited@[j],
            decreases num_false(visited@), stack@.len(),
        {
            let ghost visited0 = visited@;
            let ghost stack0 = stack@;
            let i = stack.pop().unwrap();
            if self.structure[i].value.equals(value) {
                return Some(i);
            }
            let clen = self.structure[i].children.len();
            let mut j: usize = 0;
            while j < clen
                invariant
                    j <= clen,
                    clen == self.children_at(i as int).len(),
                    visited@.len() == n,
                    forall|x: int| 0 <= x < n && visited0[x] ==> #[trigger] visited@[x],
                    stack@.len() >= stack0.len() - 1,
                    forall|k: int| 0 <= k < stack0.len() - 1 ==> stack@[k] == stack0[k],
                    forall|k: int|
                        0 <= k < stack@.len() ==> ((#[trigger] stack@[k]) as int) < n
                            && visited@[stack@[k] as int] && self.reaches(
                            start as int,
                            stack@[k] as int,
                        ),
                    forall|x: int|
                        0 <= x < n && #[trigger] visited@[x] ==> self.reaches(start as int, x),
                    forall|x: int|
                        0 <= x < n && #[trigger] visited0[x] && !in_list(stack0, x)
                            ==> self.value_at(x) != *value,
                    forall|x: int, y: int|
                        0 <= x < n && visited0[x] && !in_list(stack0, x) && #[trigger] self.edge(
                            x,
                            y,
                        ) ==> visited@[y],
                    forall|x: int| 0 <= x < n && visited@[x] && !visited0[x] ==> in_list(stack@, x),
                    forall|k: int|
                        0 <= k < j ==> visited@[#[trigger] self.children_at(i as int)[k]],
                    num_false(visited@) + stack@.len() == num_false(visited0) + stack0.len() - 1,
                decreases clen - j,
            {
                let c = self.structure[i].children[j];
                assert(c as int == self.children_at(i as int)[j as int]);
                assert(self.valid_index(c as int));
                if !visited[c] {
                    proof {
                        lemma_num_false_update(visited@, c as int);
                        self.lemma_edge_reaches(i as int, c as int);
                        self.lemma_reaches_trans(start as int, i as int, c as int);
                    }
                    visited[c] = true;
                    let ghost stack_prev = stack@;
                    stack.push(c);
                    proof {
                        assert(stack@[stack@.len() - 1] == c);
                        assert(in_list(stack@, c as int));
                        assert forall|x: int| in_list(stack_prev, x) implies in_list(
                            stack@,
                            x,
                        ) by {
                            let k = choose|k: int|
                                0 <= k < stack_prev.len() && stack_prev[k] as int == x;
                            assert(stack@[k] as int == x);
                        }
                    }
                }
                j += 1;
            }
            proof {
                assert forall|y: int| #[trigger] self.edge(i as int, y) implies visited@[y] by {
                    let k = choose|k: int|
                        0 <= k < self.children_at(i as int).len() && self.children_at(i as int)[k]
                            == y;
                    assert(visited@[self.children_at(i as int)[k]]);
                }
                assert forall|x: int|
                    0 <= x < n && #[trigger] visited@[x] && !in_list(stack@, x) implies
                    visited0[x] && (x == i as int || !in_list(stack0, x)) by {
                    if !visited0[x] {
                        assert(in_list(stack@, x));
                    }
                    if x != i as int && in_list(stack0, x) {
                        let k = choose|k: int| 0 <= k < stack0.len() && stack0[k] as int == x;
                        if k < stack0.len() - 1 {
                            assert(stack@[k] as int == x);
                            assert(in_list(stack@, x));
                        } else {
                            assert(x == i as int);
                        }
                    }
                }
            }
        }
        proof {
            assert forall|j: int| #[trigger] self.reaches(start as int, j) implies self.value_at(j)
                != *value by {
                let p = choose|p: Seq<int>|
                    self.is_path(p) && p.first() == start as int && p.last() == j;
                self.lemma_closed_reach(visited@, p);
                assert(!in_list(stack@, j));
            }
        }
        None
    }

    /// Looks a value up: the root is checked first, then the graph is
    /// searched depth-first along child edges.
    pub fn find(&self, value: &T) -> (r: Option<&T>)
        requires
            self.wf(),
        ensures
            match r {
                Some(v) => self.has_value(*value) && *v == *value,
                None => !self.has_value(*value),
            },
    {
        if self.structure[0].value.equals(value) {
            proof {
                assert(self.valid_index(0) && self.value_at(0) == *value);
            }
            Some(&self.structure[0].value)
        } else {
            match self.search_from(0, value) {
                None => {
                    proof {
                        assert forall|i: int| self.valid_index(i) implies self.value_at(i)
                            != *value by {
                            assert(self.reaches(0, i));
                        }
                    }
                    None
                },
                Some(idx) => {
                    proof {
                        assert(self.valid_index(idx as int) && self.value_at(idx as int)
                            == *value);
                    }
                    Some(&self.structure[idx].value)
                },
            }
        }
    }

    /// Inserts a new node holding `value` under the node holding
    /// `parent`. A value already present, or a missing parent, makes the
    /// call a silent no-op.
    pub fn add_new(&mut self, parent: &T, value: T)
        requires
            old(self).wf(),
        ensures
            final(self).wf(),
            Self::add_new_effect(*old(self), *final(self), *parent, value),
    {
        let ghost pre = *old(self);
        if self.find(&value).is_some() {
            return;
        }
        let node_from = self.search_from(0, parent);
        match node_from {
            Some(from) => {
                proof {
                    pre.lemma_value_index(from as int, *parent);
                }
                let location = self.structure.len();
                let ghost n = pre.node_count() as int;
                let mut new_node = DAGNode {
                    value,
                    children: Vec::new(),
                    parents: Vec::new(),
                };
                new_node.parents.push(from);
                self.structure.push(new_node);
                self.structure[from].children.push(location);
                proof {
                    let post = *self;
                    let f = from as int;
                    assert(post.structure@[f].children@ == pre.structure@[f].children@.push(
                        location,
                    ));
                    assert(post.children_at(f) =~= pre.children_at(f).push(n));
                    assert(post.children_at(n) =~= Seq::<int>::empty());
                    assert(post.parents_at(n) =~= seq![f]);
                    assert forall|i: int| 0 <= i < n implies post.value_at(i) == pre.value_at(i)
                        && post.parents_at(i) == pre.parents_at(i) by {
                        assert(post.structure@[i].value == pre.structure@[i].value);
                        assert(post.parents_at(i) =~= pre.parents_at(i));
                    }
                    assert forall|i: int| 0 <= i < n && i != f implies post.children_at(i)
                        == pre.children_at(i) by {
                        assert(post.children_at(i) =~= pre.children_at(i));
                    }
                    assert forall|i: int| 0 <= i < n implies pre.value_at(i) != value by {
                        if pre.value_at(i) == value {
                            assert(pre.valid_index(i) && pre.value_at(i) == value);
                            assert(pre.has_value(value));
                        }
                    }
                    assert forall|i: int, j: int| #[trigger] pre.edge(i, j) implies post.edge(
                        i,
                        j,
                    ) by {
                        lemma_push_contains(pre.children_at(f), n, j);
                    }
                    // handles stay in range
                    assert forall|i: int, k: int|
                        post.valid_index(i) && 0 <= k < post.children_at(i).len() implies
                        post.valid_index(#[trigger] post.children_at(i)[k]) by {
                        if i < n {
                            if i == f && k == post.children_at(i).len() - 1 {
                            } else {
                                assert(post.children_at(i)[k] == pre.children_at(i)[k]);
                                assert(pre.valid_index(pre.children_at(i)[k]));
                            }
                        }
                    }
                    assert forall|i: int, k: int|
                        post.valid_index(i) && 0 <= k < post.parents_at(i).len() implies
                        post.valid_index(#[trigger] post.parents_at(i)[k]) by {
                        if i < n {
                            assert(post.parents_at(i)[k] == pre.parents_at(i)[k]);
                            assert(pre.valid_index(pre.parents_at(i)[k]));
                        } else {
                            assert(post.parents_at(i)[k] == f);
                        }
                    }
                    // values stay pairwise distinct
                    assert forall|i: int, j: int|
                        post.valid_index(i) && post.valid_index(j) && i != j implies
                        #[trigger] post.value_at(i) != #[trigger] post.value_at(j) by {
                        if i < n && j < n {
                            assert(pre.value_at(i) != pre.value_at(j));
                        }
                    }
                    // parent lists keep mirroring child lists
                    assert forall|i: int, j: int|
                        post.valid_index(i) && post.valid_index(j) implies (
                        #[trigger] post.children_at(i).contains(j)
                            <==> #[trigger] post.parents_at(j).contains(i)) by {
                        if i < n && j < n {
                            if i == f {
                                lemma_push_contains(pre.children_at(f), n, j);
                            }
                            assert(pre.children_at(i).contains(j) <==> pre.parents_at(
                                j,
                            ).contains(i));
                        } else if i == n {
                            assert(!post.children_at(n).contains(j));
                            if post.parents_at(j).contains(n) {
                                if j < n {
                                    assert(pre.parents_at(j).contains(n));
                                    let k = choose|k: int|
                                        0 <= k < pre.parents_at(j).len() && pre.parents_at(j)[k]
                                            == n;
                                    assert(pre.valid_index(pre.parents_at(j)[k]));
                                } else {
                                    assert(post.parents_at(n)[0] == f);
                                    let k = choose|k: int|
                                        0 <= k < post.parents_at(n).len() && post.parents_at(n)[k]
                                            == n;
                                    assert(k == 0);
                                }
                            }
                        } else {
                            assert(post.parents_at(n)[0] == f);
                            if i == f {
                                lemma_push_contains(pre.children_at(f), n, n);
                                assert(post.children_at(f).contains(n));
                                assert(post.parents_at(n).contains(f));
                            } else {
                                if post.children_at(i).contains(n) {
                                    assert(pre.children_at(i).contains(n));
                                    let k = choose|k: int|
                                        0 <= k < pre.children_at(i).len() && pre.children_at(i)[k]
                                            == n;
                                    assert(pre.valid_index(pre.children_at(i)[k]));
                                }
                                if post.parents_at(n).contains(i) {
                                    let k = choose|k: int|
                                        0 <= k < post.parents_at(n).len() && post.parents_at(n)[k]
                                            == i;
                                    assert(k == 0);
                                }
                            }
                        }
                    }
                    // every node still hangs under the root
                    assert forall|i: int| post.valid_index(i) implies #[trigger] post.reaches(
                        0,
                        i,
                    ) by {
                        if i < n {
                            pre.lemma_reaches_preserved(post, 0, i);
                        } else {
                            pre.lemma_reaches_preserved(post, 0, f);
                            lemma_push_contains(pre.children_at(f), n, n);
                            assert(post.edge(f, n));
                            post.lemma_edge_reaches(f, n);
                            post.lemma_reaches_trans(0, f, n);
                        }
                    }
                    // no cycle can pass through a node without children
                    assert forall|i: int| !#[trigger] post.descends(i, i) by {
                        if post.descends(i, i) {
                            let p = choose|p: Seq<int>|
                                post.is_path(p) && p.first() == i && p.last() == i && p.len()
                                    >= 2;
                            assert forall|k: int| 0 <= k < p.len() - 1 implies p[k] != n by {
                                if p[k] == n {
                                    assert(post.edge(p[k], p[k + 1]));
                                    assert(post.children_at(n).len() == 0);
                                }
                            }
                            assert(p[0] != n);
                            assert forall|k: int| 0 <= k < p.len() - 1 implies pre.edge(
                                #[trigger] p[k],
                                p[k + 1],
                            ) by {
                                assert(post.edge(p[k], p[k + 1]));
                                if k < p.len() - 2 {
                                    assert(p[k + 1] != n);
                                } else {
                                    assert(p[k + 1] == p.last());
                                    assert(p.last() == p[0]);
                                }
                                if p[k] == f {
                                    lemma_push_contains(pre.children_at(f), n, p[k + 1]);
                                }
                            }
                            assert forall|k: int| 0 <= k < p.len() implies pre.valid_index(
                                #[trigger] p[k],
                            ) by {
                                if k < p.len() - 1 {
                                    assert(pre.edge(p[k], p[k + 1]));
                                } else {
                                    assert(p[k] == p[0]);
                                    assert(pre.edge(p[0], p[1]));
                                }
                            }
                            assert(pre.is_path(p));
                            assert(pre.descends(i, i));
                        }
                    }
                }
            },
            None => {
                proof {
                    assert forall|i: int| pre.valid_index(i) implies pre.value_at(i)
                        != *parent by {
                        assert(pre.reaches(0, i));
                    }
                    if pre.has_value(*parent) {
                        let i = choose|i: int|
                            pre.valid_index(i) && pre.value_at(i) == *parent;
                        assert(pre.value_at(i) != *parent);
                    }
                }
            },
        }
    }

    /// Adds an extra edge from the node holding `parent` to the node
    /// holding `child`. Equal values or a missing value make the call a
    /// silent no-op; a link that would close a cycle is rejected with
    /// `DagError::Cycle` before anything is changed.
    pub fn add_link(&mut self, parent: &T, child: &T) -> (r: Result<(), DagError>)
        requires
            old(self).wf(),
        ensures
            final(self).wf(),
            Self::add_link_effect(*old(self), *final(self), *parent, *child, r),
    {
        let ghost pre = *old(self);
        if parent.equals(child) {
            return Ok(());
        }
        let from = match self.search_from(0, parent) {
            Some(index) => index,
            None => {
                proof {
                    assert forall|i: int| pre.valid_index(i) implies pre.value_at(i)
                        != *parent by {
                        assert(pre.reaches(0, i));
                    }
                    if pre.has_value(*parent) {
                        let i = choose|i: int|
                            pre.valid_index(i) && pre.value_at(i) == *parent;
                        assert(pre.value_at(i) != *parent);
                    }
                }
                return Ok(());
            },
        };
        let to = match self.search_from(0, child) {
            Some(index) => index,
            None => {
                proof {
                    assert forall|i: int| pre.valid_index(i) implies pre.value_at(i)
                        != *child by {
                        assert(pre.reaches(0, i));
                    }
                    if pre.has_value(*child) {
                        let i = choose|i: int| pre.valid_index(i) && pre.value_at(i) == *child;
                        assert(pre.value_at(i) != *child);
                    }
                }
                return Ok(());
            },
        };
        proof {
            pre.lemma_value_index(from as int, *parent);
            pre.lemma_value_index(to as int, *child);
            assert(from != to);
        }
        match self.search_from(to, parent) {
            Some(hit) => {
                proof {
                    pre.lemma_value_index(hit as int, *parent);
                    assert(pre.reaches(to as int, from as int));
                }
                return Err(DagError::Cycle);
            },
            None => {
                proof {
                    if pre.reaches(to as int, from as int) {
                        assert(pre.value_at(from as int) != *parent);
                    }
                }
            },
        }
        let f = from;
        let t = to;
        self.structure[f].children.push(t);
        self.structure[t].parents.push(f);
        proof {
            let post = *self;
            let fi = f as int;
            let ti = t as int;
            let n = pre.node_count() as int;
            assert(post.children_at(fi) =~= pre.children_at(fi).push(ti));
            assert(post.parents_at(ti) =~= pre.parents_at(ti).push(fi));
            assert forall|i: int| 0 <= i < n implies post.value_at(i) == pre.value_at(i) by {
                assert(post.structure@[i].value == pre.structure@[i].value);
            }
            assert forall|i: int| 0 <= i < n && i != fi implies post.children_at(i)
                == pre.children_at(i) by {
                assert(post.children_at(i) =~= pre.children_at(i));
            }
            assert forall|i: int| 0 <= i < n && i != ti implies post.parents_at(i)
                == pre.parents_at(i) by {
                assert(post.parents_at(i) =~= pre.parents_at(i));
            }
            assert forall|i: int, j: int| #[trigger] post.edge(i, j) implies pre.edge(i, j) || (
            i == fi && j == ti) by {
                if i == fi {
                    lemma_push_contains(pre.children_at(fi), ti, j);
                }
            }
            assert forall|i: int, j: int| #[trigger] pre.edge(i, j) implies post.edge(i, j) by {
                if i == fi {
                    lemma_push_contains(pre.children_at(fi), ti, j);
                }
            }
            // handles stay in range
            assert forall|i: int, k: int|
                post.valid_index(i) && 0 <= k < post.children_at(i).len() implies
                post.valid_index(#[trigger] post.children_at(i)[k]) by {
                if i == fi && k == post.children_at(i).len() - 1 {
                } else {
                    assert(post.children_at(i)[k] == pre.children_at(i)[k]);
                    assert(pre.valid_index(pre.children_at(i)[k]));
                }
            }
            assert forall|i: int, k: int|
                post.valid_index(i) && 0 <= k < post.parents_at(i).len() implies
                post.valid_index(#[trigger] post.parents_at(i)[k]) by {
                if i == ti && k == post.parents_at(i).len() - 1 {
                } else {
                    assert(post.parents_at(i)[k] == pre.parents_at(i)[k]);
                    assert(pre.valid_index(pre.parents_at(i)[k]));
                }
            }
            // parent lists keep mirroring child lists
            assert forall|i: int, j: int|
                post.valid_index(i) && post.valid_index(j) implies (#[trigger] post.children_at(
                i,
            ).contains(j) <==> #[trigger] post.parents_at(j).contains(i)) by {
                if i == fi {
                    lemma_push_contains(pre.children_at(fi), ti, j);
                }
                if j == ti {
                    lemma_push_contains(pre.parents_at(ti), fi, i);
                }
                assert(pre.children_at(i).contains(j) <==> pre.parents_at(j).contains(i));
            }
            // every node still hangs under the root
            assert forall|i: int| post.valid_index(i) implies #[trigger] post.reaches(0, i) by {
                pre.lemma_reaches_preserved(post, 0, i);
            }
            // the cycle check ran before any change was made
            assert forall|i: int| !#[trigger] post.descends(i, i) by {
                if post.descends(i, i) {
                    let p = choose|p: Seq<int>|
                        post.is_path(p) && p.first() == i && p.last() == i && p.len() >= 2;
                    pre.lemma_new_edge_decompose(post, fi, ti, p);
                    if pre.reaches(i, fi) && pre.reaches(ti, i) {
                        pre.lemma_reaches_trans(ti, i, fi);
                    }
                }
            }
        }
        Ok(())
    }

    /// The lowest common ancestor heuristic: the ancestors of `a`'s node
    /// are expanded breadth-first, direct parents first, and the first
    /// one from whose subtree `b` can be reached supplies the answer. In
    /// diamond-shaped graphs this is the first such ancestor in search
    /// order, not always the unique minimal one.
    #[verifier::loop_isolation(false)]
    pub fn lca(&self, a: &T, b: &T) -> (r: Option<&T>)
        requires
            self.wf(),
        ensures
            !self.has_value(*a) || !self.has_value(*b) ==> r is None,
            self.has_value(*a) && self.has_value(*b) && self.idx_of(*a) == self.idx_of(*b)
                ==> match r {
                Some(v) => *v == *a,
                None => false,
            },
            self.has_value(*a) && self.has_value(*b) && self.idx_of(*a) != self.idx_of(*b)
                ==> match r {
                Some(v) => exists|anc: int|
                    self.lca_candidate(anc, *a, *b) && *v == self.value_at(anc),
                None => forall|anc: int| !self.lca_candidate(anc, *a, *b),
            },
            match r {
                Some(v) => self.lca_heuristic(*a, *b) == Some(*v),
                None => self.lca_heuristic(*a, *b) is None,
            },
    {
        let a_idx = match self.search_from(0, a) {
            Some(index) => index,
            None => {
                proof {
                    assert forall|i: int| self.valid_index(i) implies self.value_at(i) != *a by {
                        assert(self.reaches(0, i));
                    }
                    if self.has_value(*a) {
                        let i = choose|i: int| self.valid_index(i) && self.value_at(i) == *a;
                        assert(self.value_at(i) != *a);
                    }
                    assert(self.lca_heuristic(*a, *b) is None);
                }
                return None;
            },
        };
        let b_idx = match self.search_from(0, b) {
            Some(index) => index,
            None => {
                proof {
                    assert forall|i: int| self.valid_index(i) implies self.value_at(i) != *b by {
                        assert(self.reaches(0, i));
                    }
                    if self.has_value(*b) {
                        let i = choose|i: int| self.valid_index(i) && self.value_at(i) == *b;
                        assert(self.value_at(i) != *b);
                    }
                    assert(self.lca_heuristic(*a, *b) is None);
                }
                return None;
            },
        };
        proof {
            self.lemma_value_index(a_idx as int, *a);
            self.lemma_value_index(b_idx as int, *b);
        }
        if a_idx == b_idx {
            proof {
                assert(self.lca_heuristic(*a, *b) == Some(*a));
            }
            return Some(&self.structure[a_idx].value);
        }
        let n = self.structure.len();
        let mut marked = make_flags(n);
        let mut queue: Vec<usize> = Vec::new();
        let plen = self.structure[a_idx].parents.len();
        let ghost ai = a_idx as int;
        let ghost ti = b_idx as int;
        let ghost all_false = Self::no_marks(self.node_count());
        let ghost seed = Self::expand(all_false, Seq::<int>::empty(), self.parents_at(ai));
        proof {
            assert(marked@ =~= all_false);
            assert(as_ints(queue@) =~= Seq::<int>::empty());
            assert(self.parents_at(ai).subrange(0, plen as int) =~= self.parents_at(ai));
        }
        let mut j: usize = 0;
        while j < plen
            invariant
                j <= plen,
                plen == self.parents_at(a_idx as int).len(),
                marked@.len() == n,
                forall|k: int|
                    0 <= k < queue@.len() ==> ((#[trigger] queue@[k]) as int) < n
                        && marked@[queue@[k] as int] && self.descends(
                        queue@[k] as int,
                        a_idx as int,
                    ),
                forall|i: int| 0 <= i < n && #[trigger] marked@[i] ==> in_list(queue@, i),
                forall|k: int|
                    0 <= k < j ==> {
                        let q = #[trigger] self.parents_at(a_idx as int)[k];
                        0 <= q < n && marked@[q]
                    },
                Self::expand(
                    marked@,
                    as_ints(queue@),
                    self.parents_at(ai).subrange(j as int, plen as int),
                ) == seed,
            decreases plen - j,
        {
            let ghost m_at = marked@;
            let ghost q_at = as_ints(queue@);
            let p = self.structure[a_idx].parents[j];
            assert(p as int == self.parents_at(a_idx as int)[j as int]);
            assert(self.valid_index(p as int));
            if !marked[p] {
                proof {
                    assert(self.parents_at(a_idx as int).contains(p as int));
                    assert(self.edge(p as int, a_idx as int));
                    self.lemma_edge_reaches(p as int, a_idx as int);
                }
                marked[p] = true;
                let ghost queue_prev = queue@;
                queue.push(p);
                proof {
                    assert(queue@[queue@.len() - 1] == p);
                    assert(in_list(queue@, p as int));
                    assert forall|x: int| in_list(queue_prev, x) implies in_list(queue@, x) by {
                        let k = choose|k: int|
                            0 <= k < queue_prev.len() && queue_prev[k] as int == x;
                        assert(queue@[k] as int == x);
                    }
                }
            }
            proof {
                let par = self.parents_at(ai);
                let rem = par.subrange(j as int, plen as int);
                assert(rem[0] == p as int);
                assert(rem.drop_first() =~= par.subrange(j as int + 1, plen as int));
                if !m_at[p as int] {
                    assert(marked@ == m_at.update(p as int, true));
                    assert(as_ints(queue@) =~= q_at.push(p as int));
                    assert(Self::expand(m_at, q_at, rem) == Self::expand(
                        marked@,
                        as_ints(queue@),
                        rem.drop_first(),
                    ));
                } else {
                    assert(marked@ == m_at && as_ints(queue@) == q_at);
                    assert(Self::expand(m_at, q_at, rem) == Self::expand(
                        marked@,
                        as_ints(queue@),
                        rem.drop_first(),
                    ));
                }
            }
            j += 1;
        }
        proof {
            assert(self.parents_at(ai).subrange(plen as int, plen as int)
                =~= Seq::<int>::empty());
            assert(Self::expand(marked@, as_ints(queue@), Seq::<int>::empty()) == (
                marked@,
                as_ints(queue@),
            ));
            assert(marked@ == seed.0 && as_ints(queue@) == seed.1);
            assert(self.lca_heuristic(*a, *b) == (match self.bfs_from(seed.0, seed.1, 0, ti) {
                None => None::<T>,
                Some(anc) => Some(self.value_at(anc)),
            }));
            assert forall|q: int| #[trigger] self.edge(q, a_idx as int) implies 0 <= q < n
                && marked@[q] by {
                assert(self.parents_at(a_idx as int).contains(q));
                let k = choose|k: int|
                    0 <= k < self.parents_at(a_idx as int).len() && self.parents_at(
                        a_idx as int,
                    )[k] == q;
                assert(marked@[self.parents_at(a_idx as int)[k]]);
            }
        }
        let mut head: usize = 0;
        while head < queue.len()
            invariant
                head <= queue@.len(),
                marked@.len() == n,
                forall|k: int|
                    0 <= k < queue@.len() ==> ((#[trigger] queue@[k]) as int) < n
                        && marked@[queue@[k] as int] && self.descends(
                        queue@[k] as int,
                        a_idx as int,
                    ),
                forall|i: int| 0 <= i < n && #[trigger] marked@[i] ==> in_list(queue@, i),
                forall|k: int|
                    0 <= k < head ==> !self.reaches(((#[trigger] queue@[k]) as int), b_idx as int),
                forall|k: int, q: int|
                    0 <= k < head && #[trigger] self.edge(q, queue@[k] as int) ==> 0 <= q < n
                        && marked@[q],
                forall|q: int| #[trigger] self.edge(q, a_idx as int) ==> 0 <= q < n && marked@[q],
                ({
                    let cont = self.bfs_from(marked@, as_ints(queue@), head as int, ti);
                    self.lca_heuristic(*a, *b) == (match cont {
                        None => None::<T>,
                        Some(anc) => Some(self.value_at(anc)),
                    })
                }),
            decreases num_false(marked@), queue@.len() - head,
        {
            let ghost marked0 = marked@;
            let ghost queue0 = queue@;
            let ghost q0map = as_ints(queue@);
            let ghost head0 = head;
            let node = queue[head];
            head = head + 1;
            let plen2 = self.structure[node].parents.len();
            proof {
                assert(self.parents_at(node as int).subrange(0, plen2 as int)
                    =~= self.parents_at(node as int));
            }
            let mut j2: usize = 0;
            while j2 < plen2
                invariant
                    j2 <= plen2,
                    plen2 == self.parents_at(node as int).len(),
                    marked@.len() == n,
                    head == head0 + 1,
                    queue@.len() >= queue0.len(),
                    forall|k: int| 0 <= k < queue0.len() ==> queue@[k] == queue0[k],
                    forall|x: int| 0 <= x < n && marked0[x] ==> #[trigger] marked@[x],
                    forall|k: int|
                        0 <= k < queue@.len() ==> ((#[trigger] queue@[k]) as int) < n
                            && marked@[queue@[k] as int] && self.descends(
                            queue@[k] as int,
                            a_idx as int,
                        ),
                    forall|i: int| 0 <= i < n && #[trigger] marked@[i] ==> in_list(queue@, i),
                    forall|k: int|
                        0 <= k < head0 ==> !self.reaches(
                            ((#[trigger] queue@[k]) as int),
                            b_idx as int,
                        ),
                    forall|k: int, q: int|
                        0 <= k < head0 && #[trigger] self.edge(q, queue@[k] as int) ==> 0 <= q < n
                            && marked@[q],
                    forall|k: int|
                        0 <= k < j2 ==> {
                            let q = #[trigger] self.parents_at(node as int)[k];
                            0 <= q < n && marked@[q]
                        },
                    num_false(marked@) + queue@.len() == num_false(marked0) + queue0.len(),
                    Self::expand(
                        marked@,
                        as_ints(queue@),
                        self.parents_at(node as int).subrange(j2 as int, plen2 as int),
                    ) == Self::expand(marked0, q0map, self.parents_at(node as int)),
                decreases plen2 - j2,
            {
                let ghost m_at = marked@;
                let ghost q_at = as_ints(queue@);
                let p = self.structure[node].parents[j2];
                assert(p as int == self.parents_at(node as int)[j2 as int]);
                assert(self.valid_index(p as int));
                if !marked[p] {
                    proof {
                        lemma_num_false_update(marked@, p as int);
                        assert(self.parents_at(node as int).contains(p as int));
                        assert(self.edge(p as int, node as int));
                        self.lemma_descends_reaches(node as int, a_idx as int);
                        self.lemma_edge_then_reaches(p as int, node as int, a_idx as int);
                    }
                    marked[p] = true;
                    let ghost queue_prev = queue@;
                    queue.push(p);
                    proof {
                        assert(queue@[queue@.len() - 1] == p);
                        assert(in_list(queue@, p as int));
                        assert forall|x: int| in_list(queue_prev, x) implies in_list(
                            queue@,
                            x,
                        ) by {
                            let k = choose|k: int|
                                0 <= k < queue_prev.len() && queue_prev[k] as int == x;
                            assert(queue@[k] as int == x);
                        }
                    }
                }
                proof {
                    let par = self.parents_at(node as int);
                    let rem = par.subrange(j2 as int, plen2 as int);
                    assert(rem[0] == p as int);
                    assert(rem.drop_first() =~= par.subrange(j2 as int + 1, plen2 as int));
                    if !m_at[p as int] {
                        assert(marked@ == m_at.update(p as int, true));
                        assert(as_ints(queue@) =~= q_at.push(p as int));
                        assert(Self::expand(m_at, q_at, rem) == Self::expand(
                            marked@,
                            as_ints(queue@),
                            rem.drop_first(),
                        ));
                    } else {
                        assert(marked@ == m_at && as_ints(queue@) == q_at);
                        assert(Self::expand(m_at, q_at, rem) == Self::expand(
                            marked@,
                            as_ints(queue@),
                            rem.drop_first(),
                        ));
                    }
                }
                j2 += 1;
            }
            proof {
                assert(self.parents_at(node as int).subrange(plen2 as int, plen2 as int)
                    =~= Seq::<int>::empty());
                assert(Self::expand(marked@, as_ints(queue@), Seq::<int>::empty()) == (
                    marked@,
                    as_ints(queue@),
                ));
                assert((marked@, as_ints(queue@)) == Self::expand(
                    marked0,
                    q0map,
                    self.parents_at(node as int),
                ));
                assert(q0map[head0 as int] == node as int);
                assert(q0map.len() == queue0.len());
            }
            match self.search_from(node, b) {
                Some(hit) => {
                    proof {
                        self.lemma_value_index(hit as int, *b);
                        assert(self.reaches(node as int, b_idx as int));
                        assert(self.lca_candidate(node as int, *a, *b));
                        assert(exists|anc: int|
                            #[trigger] self.lca_candidate(anc, *a, *b) && self.value_at(
                                node as int,
                            ) == self.value_at(anc)) by {
                            assert(self.lca_candidate(node as int, *a, *b) && self.value_at(
                                node as int,
                            ) == self.value_at(node as int));
                        }
                        assert(self.bfs_from(marked0, q0map, head0 as int, ti) == Some(
                            node as int,
                        ));
                        assert(self.lca_heuristic(*a, *b) == Some(self.value_at(node as int)));
                    }
                    return Some(&self.structure[node].value);
                },
                None => {
                    proof {
                        if self.reaches(node as int, b_idx as int) {
                            assert(self.value_at(b_idx as int) != *b);
                        }
                        assert(!self.reaches(node as int, ti));
                        assert(self.bfs_from(marked0, q0map, head0 as int, ti)
                            == self.bfs_from(marked@, as_ints(queue@), head as int, ti));
                        assert forall|q: int| #[trigger] self.edge(q, node as int) implies 0 <= q
                            < n && marked@[q] by {
                            assert(self.parents_at(node as int).contains(q));
                            let k = choose|k: int|
                                0 <= k < self.parents_at(node as int).len() && self.parents_at(
                                    node as int,
                                )[k] == q;
                            assert(marked@[self.parents_at(node as int)[k]]);
                        }
                    }
                },
            }
        }
        proof {
            assert forall|i: int, q: int|
                0 <= i < n && marked@[i] && #[trigger] self.edge(q, i) implies 0 <= q < n
                && marked@[q] by {
                let k = choose|k: int| 0 <= k < queue@.len() && queue@[k] as int == i;
                assert(self.edge(q, queue@[k] as int));
            }
            assert forall|anc: int| !#[trigger] self.lca_candidate(anc, *a, *b) by {
                if self.lca_candidate(anc, *a, *b) {
                    let p = choose|p: Seq<int>|
                        self.is_path(p) && p.first() == anc && p.last() == a_idx as int
                            && p.len() >= 2;
                    self.lemma_ancestors_marked(marked@, a_idx as int, p);
                    let k = choose|k: int| 0 <= k < queue@.len() && queue@[k] as int == anc;
                    assert(!self.reaches(queue@[k] as int, b_idx as int));
                }
            }
            assert(as_ints(queue@).len() == queue@.len());
            assert(self.bfs_from(marked@, as_ints(queue@), head as int, ti) is None);
            assert(self.lca_heuristic(*a, *b) is None);
        }
        None
    }

    /// Creates a graph holding a single root with the given value.
    pub fn new(value: T) -> (d: DAG<T>)
        ensures
            d.wf(),
            d.node_count() == 1,
            d.value_at(0) == value,
            d.children_at(0) == Seq::<int>::empty(),
            d.parents_at(0) == Seq::<int>::empty(),
    {
        let mut new_dag = DAG { structure: Vec::new() };
        new_dag.structure.push(
            DAGNode { value, children: Vec::new(), parents: Vec::new() },
        );
        proof {
            assert(new_dag.children_at(0) =~= Seq::<int>::empty());
            assert(new_dag.parents_at(0) =~= Seq::<int>::empty());
            new_dag.lemma_reaches_self(0);
            assert forall|i: int| !#[trigger] new_dag.descends(i, i) by {
                if new_dag.descends(i, i) {
                    let p = choose|p: Seq<int>|
                        new_dag.is_path(p) && p.first() == i && p.last() == i && p.len() >= 2;
                    assert(new_dag.edge(p[0], p[1]));
                    assert(new_dag.children_at(p[0]).len() == 0);
                }
            }
        }
        new_dag
    }

    /// How many nodes the graph holds.
    pub fn len(&self) -> (n: usize)
        ensures
            n == self.node_count(),
    {
        self.structure.len()
    }
}

} // verus!
