use vstd::prelude::*;
use std::collections::HashSet;
use crate::graph::node::status::Status;

pub mod status;

verus! {

broadcast use vstd::std_specs::hash::group_hash_axioms;

/// A node as plain values: how many links still hold it back, whether it has completed, its
/// data, and the positions of the nodes that wait for it.
pub struct NodeView<T> {
    pub ready: usize,
    pub status: Status,
    pub data: T,
    pub out: Seq<usize>,
}

/// A node of a graph: its data, the positions (in the graph) of the nodes that run after it,
/// and how many nodes before it have not completed.
pub struct Node<T> {
    ready: usize,
    status: Status,
    data: T,
    out_neighbourhood: Vec<usize>,
}

/// One more, wrapping at the maximum.
pub open spec fn count_up(x: usize) -> usize {
    if x == usize::MAX {
        0
    } else {
        (x + 1) as usize
    }
}

/// One less, wrapping below zero.
pub open spec fn count_down(x: usize) -> usize {
    if x == 0 {
        usize::MAX
    } else {
        (x - 1) as usize
    }
}

/// Law: releasing a node undoes making it wait for one more node, and the other way round.
pub proof fn lemma_count_up_down(x: usize)
    ensures
        count_down(count_up(x)) == x,
        count_up(count_down(x)) == x,
{
}

impl<T> View for Node<T> {
    type V = NodeView<T>;

    closed spec fn view(&self) -> NodeView<T> {
        NodeView { ready: self.ready, status: self.status, data: self.data, out: self.out_neighbourhood@ }
    }
}

/// The nodes as plain values.
pub open spec fn views<T>(nodes: Seq<Node<T>>) -> Seq<NodeView<T>> {
    nodes.map_values(|n: Node<T>| n@)
}

/// Every out-link of `n` names a position of `ns`.
pub open spec fn links_within<T>(ns: Seq<NodeView<T>>, n: NodeView<T>) -> bool {
    forall|k: int| 0 <= k < n.out.len() ==> 0 <= #[trigger] n.out[k] < ns.len()
}

/// Every out-link of every node names a position of `ns`.
pub open spec fn links_in_range<T>(ns: Seq<NodeView<T>>) -> bool {
    forall|i: int| 0 <= i < ns.len() ==> links_within(ns, #[trigger] ns[i])
}

/// The data of the nodes.
pub open spec fn node_datas(ns: Seq<NodeView<u64>>) -> Set<u64> {
    ns.map_values(|n: NodeView<u64>| n.data).to_set()
}

/// The node at step `k` of the path `p` from `start`: `start` itself at step zero, then the
/// nodes of `ns` that `p` names.
pub open spec fn path_node(ns: Seq<NodeView<u64>>, start: NodeView<u64>, p: Seq<usize>, k: int) -> NodeView<u64> {
    if k == 0 {
        start
    } else {
        ns[p[k - 1] as int]
    }
}

/// `p` leads from `start` along out-links to a node carrying `child`, through nodes that carry
/// distinct data, none of it `child` and none in `seen`.
#[verifier::opaque]
pub open spec fn dfs_path(ns: Seq<NodeView<u64>>, start: NodeView<u64>, child: u64, seen: Set<u64>, p: Seq<usize>) -> bool {
    &&& forall|k: int| 0 <= k < p.len() ==> 0 <= #[trigger] p[k] < ns.len() && path_node(ns, start, p, k).out.contains(p[k])
    &&& path_node(ns, start, p, p.len() as int).data == child
    &&& forall|k: int|
        0 <= k < p.len() ==> (#[trigger] path_node(ns, start, p, k)).data != child && !seen.contains(path_node(ns, start, p, k).data)
    &&& forall|a: int, b: int|
        0 <= a < b < p.len() ==> (#[trigger] path_node(ns, start, p, a)).data != (#[trigger] path_node(ns, start, p, b)).data
}

/// A search from `start` for `child` that never passes a node whose data it has seen finds it.
pub open spec fn dfs_reaches(ns: Seq<NodeView<u64>>, start: NodeView<u64>, child: u64, seen: Set<u64>) -> bool {
    exists|p: Seq<usize>| #[trigger] dfs_path(ns, start, child, seen, p)
}

proof fn lemma_dfs_prepend(ns: Seq<NodeView<u64>>, start: NodeView<u64>, child: u64, seen: Set<u64>, j: usize, q: Seq<usize>)
    requires
        start.data != child,
        !seen.contains(start.data),
        start.out.contains(j),
        0 <= j < ns.len(),
        dfs_path(ns, ns[j as int], child, seen.insert(start.data), q),
    ensures
        dfs_path(ns, start, child, seen, seq![j] + q),
{
    reveal(dfs_path);
    let p = seq![j] + q;
    let y = ns[j as int];
    assert forall|k: int| 0 < k <= p.len() implies path_node(ns, start, p, k) == path_node(ns, y, q, k - 1) by {
        if k > 1 {
            assert(p[k - 1] == q[k - 2]);
        }
    }
    assert forall|k: int| 0 <= k < p.len() implies 0 <= #[trigger] p[k] < ns.len() && path_node(ns, start, p, k).out.contains(p[k]) by {
        if k > 0 {
            assert(p[k] == q[k - 1]);
            assert(path_node(ns, start, p, k) == path_node(ns, y, q, k - 1));
        }
    }
    assert(path_node(ns, start, p, p.len() as int) == path_node(ns, y, q, q.len() as int));
    assert forall|k: int| 0 <= k < p.len() implies (#[trigger] path_node(ns, start, p, k)).data != child
        && !seen.contains(path_node(ns, start, p, k).data) by {
        if k > 0 {
            assert(path_node(ns, start, p, k) == path_node(ns, y, q, k - 1));
        }
    }
    assert forall|a: int, b: int| 0 <= a < b < p.len() implies (#[trigger] path_node(ns, start, p, a)).data
        != (#[trigger] path_node(ns, start, p, b)).data by {
        assert(path_node(ns, start, p, b) == path_node(ns, y, q, b - 1));
        if a > 0 {
            assert(path_node(ns, start, p, a) == path_node(ns, y, q, a - 1));
        } else {
            assert(!seen.insert(start.data).contains(path_node(ns, y, q, b - 1).data));
        }
    }
}

#[verifier::rlimit(40)]
#[verifier::spinoff_prover]
proof fn lemma_dfs_drop(ns: Seq<NodeView<u64>>, start: NodeView<u64>, child: u64, seen: Set<u64>, p: Seq<usize>)
    requires
        dfs_path(ns, start, child, seen, p),
        p.len() >= 1,
    ensures
        start.out.contains(p[0]),
        0 <= p[0] < ns.len(),
        dfs_path(ns, ns[p[0] as int], child, seen.insert(start.data), p.drop_first()),
{
    reveal(dfs_path);
    let q = p.drop_first();
    let y = ns[p[0] as int];
    assert(path_node(ns, start, p, 0) == start);
    assert forall|k: int| 0 <= k <= q.len() implies path_node(ns, y, q, k) == path_node(ns, start, p, k + 1) by {
        if k > 0 {
            assert(q[k - 1] == p[k]);
        }
    }
    assert forall|k: int| 0 <= k < q.len() implies 0 <= #[trigger] q[k] < ns.len() && path_node(ns, y, q, k).out.contains(q[k]) by {
        assert(q[k] == p[k + 1]);
        assert(path_node(ns, y, q, k) == path_node(ns, start, p, k + 1));
    }
    assert(path_node(ns, y, q, q.len() as int) == path_node(ns, start, p, p.len() as int));
    assert forall|k: int| 0 <= k < q.len() implies (#[trigger] path_node(ns, y, q, k)).data != child
        && !seen.insert(start.data).contains(path_node(ns, y, q, k).data) by {
        assert(path_node(ns, y, q, k) == path_node(ns, start, p, k + 1));
        assert(path_node(ns, start, p, 0).data != path_node(ns, start, p, k + 1).data);
    }
    assert forall|a: int, b: int| 0 <= a < b < q.len() implies (#[trigger] path_node(ns, y, q, a)).data
        != (#[trigger] path_node(ns, y, q, b)).data by {
        assert(path_node(ns, y, q, a) == path_node(ns, start, p, a + 1));
        assert(path_node(ns, y, q, b) == path_node(ns, start, p, b + 1));
    }
}

impl<T> Node<T> {
    /// A node that is ready, with no link held against it and no node after it.
    pub fn new(data: T) -> (node: Self)
        ensures
            node@ == (NodeView { ready: 0, status: Status::Ready, data, out: Seq::<usize>::empty() }),
    {
        Node { ready: 0, status: Status::Ready, data, out_neighbourhood: Vec::new() }
    }

    /// The data the node carries.
    pub fn data(&self) -> (data: &T)
        ensures
            *data == self@.data,
    {
        &self.data
    }

    /// The number of nodes that run after this one.
    pub fn out_degree(&self) -> (degree: usize)
        ensures
            degree == self@.out.len(),
    {
        self.out_neighbourhood.len()
    }

    /// The number of nodes before this one that have not completed.
    pub fn in_degree(&self) -> (degree: usize)
        ensures
            degree == self@.ready,
    {
        self.ready
    }

    /// Whether the node has completed.
    pub fn status(&self) -> (status: &Status)
        ensures
            *status == self@.status,
    {
        &self.status
    }

    /// The position of the `k`-th node that runs after this one.
    pub(crate) fn neighbour_at(&self, k: usize) -> (neighbour: usize)
        requires
            k < self@.out.len(),
        ensures
            neighbour == self@.out[k as int],
    {
        self.out_neighbourhood[k]
    }

    /// Records that the node at `neighbour` runs after this one.
    pub fn insert_out_neighbour(&mut self, neighbour: usize)
        ensures
            final(self)@ == (NodeView { out: old(self)@.out.push(neighbour), ..old(self)@ }),
    {
        self.out_neighbourhood.push(neighbour);
    }

    /// One more node before this one has to complete (the count wraps at its maximum).
    pub fn make_one_unready(&mut self)
        ensures
            final(self)@ == (NodeView { ready: count_up(old(self)@.ready), ..old(self)@ }),
    {
        self.ready = if self.ready == usize::MAX { 0 } else { self.ready + 1 };
    }

    /// One node before this one has completed (the count wraps below zero).
    pub fn make_one_ready(&mut self)
        ensures
            final(self)@ == (NodeView { ready: count_down(old(self)@.ready), ..old(self)@ }),
    {
        self.ready = if self.ready == 0 { usize::MAX } else { self.ready - 1 };
    }

    /// Whether the node can run now: no node before it is left, and it has not completed.
    pub fn is_ready(&self) -> (ready: bool)
        ensures
            ready == (self@.ready == 0 && self@.status == Status::Ready),
    {
        self.ready == 0 && match self.status {
            Status::Ready => true,
            Status::Complete => false,
        }
    }

    /// Marks the node as completed. The nodes after it are held by position in the graph, so
    /// releasing them is the part of `Graph::complete`.
    pub fn complete(&mut self)
        ensures
            final(self)@ == (NodeView { status: Status::Complete, ..old(self)@ }),
    {
        self.status = Status::Complete;
    }
}

/// No two nodes carry the same data.
pub open spec fn datas_distinct(ns: Seq<NodeView<u64>>) -> bool {
    forall|i: int, j: int| 0 <= i < ns.len() && 0 <= j < ns.len() && i != j ==> #[trigger] ns[i].data != #[trigger] ns[j].data
}

/// `p` leads from `start` along out-links through nodes of `ns`.
pub open spec fn pos_walk(ns: Seq<NodeView<u64>>, start: NodeView<u64>, p: Seq<usize>) -> bool {
    forall|k: int| 0 <= k < p.len() ==> 0 <= #[trigger] p[k] < ns.len() && path_node(ns, start, p, k).out.contains(p[k])
}

/// The node at `i` can be reached from `start` along one or more out-links.
pub open spec fn reaches_pos(ns: Seq<NodeView<u64>>, start: NodeView<u64>, i: int) -> bool {
    exists|p: Seq<usize>| #[trigger] pos_walk(ns, start, p) && p.len() >= 1 && p.last() == i
}

/// The data of the nodes that can be reached from `start`.
pub open spec fn reach_datas(ns: Seq<NodeView<u64>>, start: NodeView<u64>) -> Set<u64> {
    Set::new(|d: u64| exists|i: int| #[trigger] reaches_pos(ns, start, i) && ns[i].data == d)
}

/// The nodes that can be reached from `start` carry distinct data, and one that carries the data
/// of `start` is `start`.
pub open spec fn reach_consistent(ns: Seq<NodeView<u64>>, start: NodeView<u64>) -> bool {
    &&& forall|i: int, j: int|
        #[trigger] reaches_pos(ns, start, i) && #[trigger] reaches_pos(ns, start, j) && i != j ==> ns[i].data != ns[j].data
    &&& forall|i: int| #[trigger] reaches_pos(ns, start, i) && ns[i].data == start.data ==> ns[i] == start
}

/// Each node reachable from `start` whose data a search added to `old` (giving `new`) is not
/// `child`, and the nodes after it carry data in `new`, none of it `child`.
pub open spec fn visited_closed(ns: Seq<NodeView<u64>>, start: NodeView<u64>, child: u64, old: Set<u64>, new: Set<u64>) -> bool {
    forall|i: int|
        #[trigger] reaches_pos(ns, start, i) && new.contains(ns[i].data) && !old.contains(ns[i].data) ==> ns[i].data != child
            && forall|k: int|
            0 <= k < ns[i].out.len() ==> new.contains(#[trigger] ns[ns[i].out[k] as int].data) && ns[ns[i].out[k] as int].data != child
}

/// A node of `start`'s out-links can be reached from `start`.
proof fn lemma_reach_step(ns: Seq<NodeView<u64>>, start: NodeView<u64>, next: usize)
    requires
        start.out.contains(next),
        next < ns.len(),
    ensures
        reaches_pos(ns, start, next as int),
{
    let p = seq![next];
    assert(path_node(ns, start, p, 0) == start);
    assert(pos_walk(ns, start, p));
}

/// What can be reached from a node after `start` can be reached from `start`.
proof fn lemma_reach_prepend(ns: Seq<NodeView<u64>>, start: NodeView<u64>, next: usize, i: int)
    requires
        start.out.contains(next),
        next < ns.len(),
        reaches_pos(ns, ns[next as int], i),
    ensures
        reaches_pos(ns, start, i),
{
    let q = choose|q: Seq<usize>| #[trigger] pos_walk(ns, ns[next as int], q) && q.len() >= 1 && q.last() == i;
    let p = seq![next] + q;
    assert forall|k: int| 0 < k <= q.len() implies path_node(ns, start, p, k) == path_node(ns, ns[next as int], q, k - 1) by {
        if k > 1 {
            assert(p[k - 1] == q[k - 2]);
        }
    }
    assert forall|k: int| 0 <= k < p.len() implies 0 <= #[trigger] p[k] < ns.len() && path_node(ns, start, p, k).out.contains(p[k]) by {
        if k > 0 {
            assert(p[k] == q[k - 1]);
            assert(path_node(ns, start, p, k) == path_node(ns, ns[next as int], q, k - 1));
        } else {
            assert(path_node(ns, start, p, 0) == start);
        }
    }
    assert(pos_walk(ns, start, p));
    assert(p.last() == q.last());
}

/// Every node of a search path past its start can be reached from the start.
proof fn lemma_dfs_reach(ns: Seq<NodeView<u64>>, start: NodeView<u64>, child: u64, s: Set<u64>, p: Seq<usize>, k: int)
    requires
        dfs_path(ns, start, child, s, p),
        1 <= k <= p.len(),
    ensures
        reaches_pos(ns, start, p[k - 1] as int),
{
    reveal(dfs_path);
    let q = p.take(k);
    assert forall|m: int| 0 <= m <= k implies path_node(ns, start, q, m) == path_node(ns, start, p, m) by {
        if m > 0 {
            assert(q[m - 1] == p[m - 1]);
        }
    }
    assert forall|m: int| 0 <= m < q.len() implies 0 <= #[trigger] q[m] < ns.len() && path_node(ns, start, q, m).out.contains(q[m]) by {
        assert(q[m] == p[m]);
    }
    assert(pos_walk(ns, start, q));
}

/// Where the data of all nodes are distinct, those reachable from the node at `i` are too.
pub proof fn lemma_reach_consistent(ns: Seq<NodeView<u64>>, i: int)
    requires
        datas_distinct(ns),
        0 <= i < ns.len(),
    ensures
        reach_consistent(ns, ns[i]),
{
    assert forall|a: int, b: int| #[trigger] reaches_pos(ns, ns[i], a) && #[trigger] reaches_pos(ns, ns[i], b) && a != b implies ns[a].data != ns[b].data by {
        let p = choose|p: Seq<usize>| #[trigger] pos_walk(ns, ns[i], p) && p.len() >= 1 && p.last() == a;
        let q = choose|q: Seq<usize>| #[trigger] pos_walk(ns, ns[i], q) && q.len() >= 1 && q.last() == b;
        assert(0 <= p[p.len() - 1] < ns.len());
        assert(0 <= q[q.len() - 1] < ns.len());
    }
    assert forall|a: int| #[trigger] reaches_pos(ns, ns[i], a) && ns[a].data == ns[i].data implies ns[a] == ns[i] by {
        let p = choose|p: Seq<usize>| #[trigger] pos_walk(ns, ns[i], p) && p.len() >= 1 && p.last() == a;
        assert(0 <= p[p.len() - 1] < ns.len());
    }
}

proof fn lemma_datas_finite(ns: Seq<NodeView<u64>>)
    ensures
        node_datas(ns).finite(),
        forall|i: int| 0 <= i < ns.len() ==> node_datas(ns).contains(#[trigger] ns[i].data),
{
    broadcast use vstd::seq_lib::seq_to_set_is_finite;
    assert forall|i: int| 0 <= i < ns.len() implies node_datas(ns).contains(#[trigger] ns[i].data) by {
        let d = ns.map_values(|n: NodeView<u64>| n.data);
        assert(d[i] == ns[i].data);
    }
}

/// Where the search from `start` has ended having seen `start`'s data, nothing it skipped holds
/// a path: a search path from `start` avoiding `seen` needs `start`'s data unseen.
proof fn lemma_seen_not_reached(ns: Seq<NodeView<u64>>, start: NodeView<u64>, child: u64, seen: Set<u64>)
    requires
        start.data != child,
        seen.contains(start.data),
    ensures
        !dfs_reaches(ns, start, child, seen),
{
    reveal(dfs_path);
    assert forall|p: Seq<usize>| !#[trigger] dfs_path(ns, start, child, seen, p) by {
        if dfs_path(ns, start, child, seen, p) {
            if p.len() == 0 {
                assert(path_node(ns, start, p, 0) == start);
            } else {
                assert(path_node(ns, start, p, 0) == start);
            }
        }
    }
}

/// A search that ended without finding `child`, having started from the record `s0` at a node
/// whose data were not in it, misses no path that avoids `s0`.
pub proof fn lemma_dfs_complete(ns: Seq<NodeView<u64>>, start: NodeView<u64>, child: u64, s0: Set<u64>, seen: Set<u64>)
    requires
        start.data != child,
        seen.contains(start.data),
        !s0.contains(start.data),
        forall|k: int| 0 <= k < start.out.len() ==> seen.contains(#[trigger] ns[start.out[k] as int].data) && ns[start.out[k] as int].data != child,
        visited_closed(ns, start, child, s0, seen),
    ensures
        !dfs_reaches(ns, start, child, s0),
{
    reveal(dfs_path);
    assert forall|p: Seq<usize>| !#[trigger] dfs_path(ns, start, child, s0, p) by {
        if dfs_path(ns, start, child, s0, p) {
            // every node along the path carries data the search has seen, none of it `child`
            assert forall|k: int| 0 <= k <= p.len() implies seen.contains(#[trigger] path_node(ns, start, p, k).data)
                && path_node(ns, start, p, k).data != child by {
                lemma_path_seen(ns, start, child, s0, seen, p, k);
            }
            assert(path_node(ns, start, p, p.len() as int).data == child);
        }
    }
}

proof fn lemma_path_seen(ns: Seq<NodeView<u64>>, start: NodeView<u64>, child: u64, s0: Set<u64>, seen: Set<u64>, p: Seq<usize>, k: int)
    requires
        start.data != child,
        seen.contains(start.data),
        forall|k: int| 0 <= k < start.out.len() ==> seen.contains(#[trigger] ns[start.out[k] as int].data) && ns[start.out[k] as int].data != child,
        visited_closed(ns, start, child, s0, seen),
        dfs_path(ns, start, child, s0, p),
        0 <= k <= p.len(),
    ensures
        seen.contains(path_node(ns, start, p, k).data),
        path_node(ns, start, p, k).data != child,
    decreases k,
{
    reveal(dfs_path);
    if k > 0 {
        lemma_path_seen(ns, start, child, s0, seen, p, k - 1);
        let prev = path_node(ns, start, p, k - 1);
        assert(prev.out.contains(p[k - 1]));
        let t = choose|t: int| 0 <= t < prev.out.len() && prev.out[t] == p[k - 1];
        if k == 1 {
            assert(prev == start);
        } else {
            let i = p[k - 2] as int;
            assert(prev == ns[i]);
            assert(0 <= i < ns.len());
            assert(!s0.contains(prev.data));
            lemma_dfs_reach(ns, start, child, s0, p, k - 1);
        }
    }
}

proof fn lemma_dfs_path_seen_mono(ns: Seq<NodeView<u64>>, start: NodeView<u64>, child: u64, smaller: Set<u64>, larger: Set<u64>, p: Seq<usize>)
    requires
        smaller.subset_of(larger),
        dfs_path(ns, start, child, larger, p),
    ensures
        dfs_path(ns, start, child, smaller, p),
{
    reveal(dfs_path);
}


/// The data a search has left to see shrink when it steps from a node whose data it had not
/// seen to a node of the graph.
proof fn lemma_measure_drops(d: Set<u64>, x: u64, y: u64, seen0: Set<u64>, seen: Set<u64>)
    requires
        d.finite(),
        d.contains(y),
        !seen0.contains(x),
        seen0.insert(x).subset_of(seen),
    ensures
        d.insert(y).difference(seen).len() < d.insert(x).difference(seen0).len(),
{
    let a = d.insert(x).difference(seen0);
    assert(d.insert(y) =~= d);
    assert(d.difference(seen).subset_of(a.remove(x)));
    assert(a.finite());
    vstd::set_lib::lemma_len_subset(d.difference(seen), a.remove(x));
    assert(a.contains(x));
}

/// What a search from a node after `start` adds lies within what can be reached from `start`.
proof fn lemma_step_bound(ns: Seq<NodeView<u64>>, start: NodeView<u64>, next: usize, seen0: Set<u64>, before: Set<u64>, after: Set<u64>)
    requires
        start.out.contains(next),
        next < ns.len(),
        before.subset_of(seen0.union(reach_datas(ns, start).insert(start.data))),
        after.subset_of(before.union(reach_datas(ns, ns[next as int]).insert(ns[next as int].data))),
    ensures
        after.subset_of(seen0.union(reach_datas(ns, start).insert(start.data))),
{
    assert forall|d: u64| after.contains(d) implies seen0.union(reach_datas(ns, start).insert(start.data)).contains(d) by {
        if !before.contains(d) {
            if d == ns[next as int].data {
                lemma_reach_step(ns, start, next);
                assert(reaches_pos(ns, start, next as int));
                assert(reach_datas(ns, start).contains(d));
            } else {
                assert(reach_datas(ns, ns[next as int]).contains(d));
                let i = choose|i: int| #[trigger] reaches_pos(ns, ns[next as int], i) && ns[i].data == d;
                lemma_reach_prepend(ns, start, next, i);
                assert(reach_datas(ns, start).contains(d));
            }
        }
    }
}

/// Distinct data among the nodes reachable from `start` hold among those reachable from a node
/// after it.
proof fn lemma_reach_consistent_next(ns: Seq<NodeView<u64>>, start: NodeView<u64>, next: usize)
    requires
        reach_consistent(ns, start),
        start.out.contains(next),
        next < ns.len(),
    ensures
        reach_consistent(ns, ns[next as int]),
{
    lemma_reach_step(ns, start, next);
    assert forall|a: int, b: int| #[trigger] reaches_pos(ns, ns[next as int], a) && #[trigger] reaches_pos(ns, ns[next as int], b) && a != b implies ns[a].data != ns[b].data by {
        lemma_reach_prepend(ns, start, next, a);
        lemma_reach_prepend(ns, start, next, b);
    }
    assert forall|a: int| #[trigger] reaches_pos(ns, ns[next as int], a) && ns[a].data == ns[next as int].data implies ns[a] == ns[next as int] by {
        lemma_reach_prepend(ns, start, next, a);
        if a != next as int {
            assert(reaches_pos(ns, start, next as int));
            assert(ns[a].data != ns[next as int].data);
        }
    }
}

/// After a search from a node after `start` that did not find `child`, the nodes reachable from
/// `start` whose data are new are closed.
proof fn lemma_closed_step(
    ns: Seq<NodeView<u64>>,
    start: NodeView<u64>,
    next: usize,
    child: u64,
    seen1: Set<u64>,
    before: Set<u64>,
    after: Set<u64>,
)
    requires
        reach_consistent(ns, start),
        reach_consistent(ns, ns[next as int]),
        start.out.contains(next),
        next < ns.len(),
        seen1.subset_of(before),
        before.subset_of(after),
        visited_closed(ns, start, child, seen1, before),
        visited_closed(ns, ns[next as int], child, before, after),
        after.contains(ns[next as int].data),
        ns[next as int].data != child,
        !before.contains(ns[next as int].data) ==> forall|k: int|
            0 <= k < ns[next as int].out.len() ==> after.contains(#[trigger] ns[ns[next as int].out[k] as int].data)
                && ns[ns[next as int].out[k] as int].data != child,
        after.subset_of(before.union(reach_datas(ns, ns[next as int]).insert(ns[next as int].data))),
    ensures
        visited_closed(ns, start, child, seen1, after),
{
    lemma_reach_step(ns, start, next);
    assert forall|i: int| #[trigger] reaches_pos(ns, start, i) && after.contains(ns[i].data) && !seen1.contains(ns[i].data)
        implies ns[i].data != child && forall|k: int|
        0 <= k < ns[i].out.len() ==> after.contains(#[trigger] ns[ns[i].out[k] as int].data) && ns[ns[i].out[k] as int].data != child by {
        if before.contains(ns[i].data) {
            assert forall|k: int| 0 <= k < ns[i].out.len() implies after.contains(#[trigger] ns[ns[i].out[k] as int].data)
                && ns[ns[i].out[k] as int].data != child by {
                assert(before.contains(ns[ns[i].out[k] as int].data));
            }
        } else if ns[i].data == ns[next as int].data {
            if i != next as int {
                assert(ns[i].data != ns[next as int].data);
            }
        } else {
            assert(reach_datas(ns, ns[next as int]).contains(ns[i].data));
            let i2 = choose|i2: int| #[trigger] reaches_pos(ns, ns[next as int], i2) && ns[i2].data == ns[i].data;
            lemma_reach_prepend(ns, start, next, i2);
            if i2 != i {
                assert(ns[i2].data != ns[i].data);
            }
        }
    }
}

impl Node<u64> {
    /// Whether a node carrying `child` can be reached from this node along out-links to nodes of
    /// `nodes`, passing only nodes whose data are not yet in `seen`; each data passed is added to
    /// `seen` for the rest of the search, so no data is passed twice. Where `child` is reached, it
    /// is along such a path; where the data of the nodes reachable from this one are distinct
    /// (and one carrying this node's data is this node), the answer is exactly whether such a
    /// path exists. `seen` gains only this node's data and those of nodes reachable from it, and
    /// is left as it was where this node carries `child` or its data were already seen.
    pub fn contains_child(&self, nodes: &Vec<Node<u64>>, child: &u64, seen: &mut HashSet<u64>) -> (found: bool)
        requires
            links_in_range(views(nodes@)),
            links_within(views(nodes@), self@),
        ensures
            old(seen)@.subset_of(final(seen)@),
            found ==> dfs_reaches(views(nodes@), self@, *child, old(seen)@),
            !found ==> final(seen)@.contains(self@.data) && self@.data != *child,
            found && self@.data != *child ==> final(seen)@.contains(self@.data),
            !found && !old(seen)@.contains(self@.data) ==> forall|k: int|
                0 <= k < self@.out.len() ==> final(seen)@.contains(#[trigger] views(nodes@)[self@.out[k] as int].data)
                    && views(nodes@)[self@.out[k] as int].data != *child,
            !found && reach_consistent(views(nodes@), self@) ==> visited_closed(views(nodes@), self@, *child, old(seen)@, final(seen)@),
            reach_consistent(views(nodes@), self@) ==> found == dfs_reaches(views(nodes@), self@, *child, old(seen)@),
            self@.data == *child || old(seen)@.contains(self@.data) ==> final(seen)@ == old(seen)@,
            final(seen)@.subset_of(old(seen)@.union(reach_datas(views(nodes@), self@).insert(self@.data))),
        decreases node_datas(views(nodes@)).insert(self@.data).difference(old(seen)@).len(),
    {
        let ghost ns = views(nodes@);
        let ghost seen0 = seen@;
        if *child == self.data {
            proof {
                let p = Seq::<usize>::empty();
                assert(path_node(ns, self@, p, 0) == self@);
                reveal(dfs_path);
                assert(dfs_path(ns, self@, *child, seen0, p));
            }
            return true;
        }
        if !seen.insert(self.data) {
            proof {
                assert(seen@ =~= seen0);
                lemma_seen_not_reached(ns, self@, *child, seen0);
            }
            return false;
        }
        let ghost seen1 = seen@;
        proof {
            lemma_datas_finite(ns);
        }
        let mut j: usize = 0;
        while j < self.out_neighbourhood.len()
            invariant
                0 <= j <= self@.out.len(),
                ns == views(nodes@),
                links_in_range(ns),
                links_within(ns, self@),
                self@.data != *child,
                !seen0.contains(self@.data),
                seen0 == old(seen)@,
                seen1 == seen0.insert(self@.data),
                seen1.subset_of(seen@),
                node_datas(ns).finite(),
                forall|i: int| 0 <= i < ns.len() ==> node_datas(ns).contains(#[trigger] ns[i].data),
                forall|t: int| 0 <= t < j ==> seen@.contains(#[trigger] ns[self@.out[t] as int].data) && ns[self@.out[t] as int].data != *child,
                reach_consistent(ns, self@) ==> visited_closed(ns, self@, *child, seen1, seen@),
                seen@.subset_of(seen0.union(reach_datas(ns, self@).insert(self@.data))),
            decreases self@.out.len() - j,
        {
            let next = self.out_neighbourhood[j];
            let neighbour = &nodes[next];
            let ghost seen_before = seen@;
            proof {
                assert(self@.out[j as int] == next);
                assert(neighbour@ == ns[next as int]);
                assert(links_within(ns, ns[next as int]));
                lemma_measure_drops(node_datas(ns), self@.data, neighbour@.data, seen0, seen_before);
                lemma_reach_step(ns, self@, next);
            }
            let found = neighbour.contains_child(nodes, child, seen);
            proof {
                lemma_step_bound(ns, self@, next, seen0, seen_before, seen@);
            }
            if found {
                proof {
                    let q = choose|q: Seq<usize>| #[trigger] dfs_path(ns, ns[next as int], *child, seen_before, q);
                    assert(seen1.subset_of(seen_before));
                    lemma_dfs_path_seen_mono(ns, ns[next as int], *child, seen1, seen_before, q);
                    assert(self@.out.contains(next));
                    lemma_dfs_prepend(ns, self@, *child, seen0, next, q);
                    assert(dfs_path(ns, self@, *child, seen0, seq![next] + q));
                    assert(seen0.subset_of(seen@));
                }
                return true;
            }
            proof {
                if reach_consistent(ns, self@) {
                    lemma_reach_consistent_next(ns, self@, next);
                    lemma_closed_step(ns, self@, next, *child, seen1, seen_before, seen@);
                }
            }
            j += 1;
        }
        proof {
            if reach_consistent(ns, self@) {
                assert forall|i: int| #[trigger] reaches_pos(ns, self@, i) && seen@.contains(ns[i].data) && !seen0.contains(ns[i].data)
                    implies ns[i].data != *child && forall|k: int|
                    0 <= k < ns[i].out.len() ==> seen@.contains(#[trigger] ns[ns[i].out[k] as int].data) && ns[ns[i].out[k] as int].data != *child by {
                    if ns[i].data == self@.data {
                        assert(ns[i] == self@);
                    } else {
                        assert(!seen1.contains(ns[i].data));
                    }
                }
                lemma_dfs_complete(ns, self@, *child, seen0, seen@);
            }
        }
        false
    }

    /// Whether a node carrying `child` can be reached from this node along out-links to nodes of
    /// `nodes`, through nodes whose data are neither in `seen` nor repeated along the way: each
    /// branch of the search carries its own record of the data above it.
    pub fn contains_child_2(&self, nodes: &Vec<Node<u64>>, child: &u64, seen: Vec<u64>) -> (found: bool)
        requires
            links_in_range(views(nodes@)),
            links_within(views(nodes@), self@),
        ensures
            found == dfs_reaches(views(nodes@), self@, *child, seen@.to_set()),
        decreases node_datas(views(nodes@)).insert(self@.data).difference(seen@.to_set()).len(),
    {
        let ghost ns = views(nodes@);
        let ghost seen0 = seen@.to_set();
        if *child == self.data {
            proof {
                let p = Seq::<usize>::empty();
                assert(path_node(ns, self@, p, 0) == self@);
                reveal(dfs_path);
                assert(dfs_path(ns, self@, *child, seen0, p));
            }
            return true;
        }
        let mut k: usize = 0;
        while k < seen.len()
            invariant
                0 <= k <= seen@.len(),
                ns == views(nodes@),
                seen0 == seen@.to_set(),
                self@.data != *child,
                forall|t: int| 0 <= t < k ==> seen@[t] != self@.data,
            decreases seen.len() - k,
        {
            if seen[k] == self.data {
                proof {
                    assert(seen@.to_set().contains(self@.data));
                    lemma_seen_not_reached(ns, self@, *child, seen0);
                }
                return false;
            }
            k += 1;
        }
        let mut path_seen = seen;
        let ghost before_push = path_seen@;
        path_seen.push(self.data);
        let ghost seen1 = path_seen@.to_set();
        proof {
            assert(path_seen@ =~= before_push + seq![self@.data]);
            Seq::lemma_to_set_insert_commutes(before_push, self@.data);
            assert forall|x: u64| seen0.contains(x) implies x != self@.data by {
                let t = choose|t: int| 0 <= t < before_push.len() && before_push[t] == x;
            }
            assert(!seen0.contains(self@.data));
            lemma_datas_finite(ns);
        }
        let mut j: usize = 0;
        while j < self.out_neighbourhood.len()
            invariant
                0 <= j <= self@.out.len(),
                ns == views(nodes@),
                links_in_range(ns),
                links_within(ns, self@),
                self@.data != *child,
                !seen0.contains(self@.data),
                seen1 == seen0.insert(self@.data),
                path_seen@.to_set() == seen1,
                seen0 == seen@.to_set(),
                node_datas(ns).finite(),
                forall|i: int| 0 <= i < ns.len() ==> node_datas(ns).contains(#[trigger] ns[i].data),
                forall|t: int| 0 <= t < j ==> !dfs_reaches(ns, #[trigger] ns[self@.out[t] as int], *child, seen1),
            decreases self@.out.len() - j,
        {
            let next = self.out_neighbourhood[j];
            let neighbour = &nodes[next];
            proof {
                assert(self@.out[j as int] == next);
                assert(neighbour@ == ns[next as int]);
                assert(links_within(ns, ns[next as int]));
                lemma_measure_drops(node_datas(ns), self@.data, neighbour@.data, seen0, seen1);
            }
            let branch = copy_items(&path_seen);
            if neighbour.contains_child_2(nodes, child, branch) {
                proof {
                    let q = choose|q: Seq<usize>| #[trigger] dfs_path(ns, ns[next as int], *child, seen1, q);
                    assert(self@.out.contains(next));
                    lemma_dfs_prepend(ns, self@, *child, seen0, next, q);
                    assert(dfs_path(ns, self@, *child, seen0, seq![next] + q));
                }
                return true;
            }
            j += 1;
        }
        proof {
            assert forall|p: Seq<usize>| !#[trigger] dfs_path(ns, self@, *child, seen0, p) by {
                if dfs_path(ns, self@, *child, seen0, p) {
                    if p.len() == 0 {
                        reveal(dfs_path);
                        assert(path_node(ns, self@, p, 0) == self@);
                    } else {
                        lemma_dfs_drop(ns, self@, *child, seen0, p);
                        let t = choose|t: int| 0 <= t < self@.out.len() && self@.out[t] == p[0];
                        assert(!dfs_reaches(ns, ns[self@.out[t] as int], *child, seen1));
                    }
                }
            }
        }
        false
    }
}

/// A copy of the identifiers.
fn copy_items(v: &Vec<u64>) -> (copy: Vec<u64>)
    ensures
        copy@ == v@,
{
    let mut copy: Vec<u64> = Vec::new();
    let mut i: usize = 0;
    while i < v.len()
        invariant
            0 <= i <= v@.len(),
            copy@ == v@.take(i as int),
        decreases v.len() - i,
    {
        copy.push(v[i]);
        i += 1;
        proof {
            assert(copy@ =~= v@.take(i as int));
        }
    }
    proof {
        assert(v@.take(i as int) =~= v@);
    }
    copy
}

} // verus!
