use vstd::prelude::*;
use crate::graph::node::{Node, NodeView, views, links_in_range, links_within, count_down};
use crate::graph::node::status::Status;

pub mod node;
pub mod flow;
pub mod construct;

verus! {

/// A graph of nodes that hold one another back: a node runs once every node with a link to it
/// has completed.
pub struct Graph<T> {
    nodes: Vec<Node<T>>,
}

impl<T> View for Graph<T> {
    type V = Seq<NodeView<T>>;

    closed spec fn view(&self) -> Seq<NodeView<T>> {
        views(self.nodes@)
    }
}

/// How many times `j` occurs in `out`.
pub open spec fn occurrences(out: Seq<usize>, j: usize) -> nat
    decreases out.len(),
{
    if out.len() == 0 {
        0
    } else {
        occurrences(out.drop_last(), j) + if out.last() == j { 1nat } else { 0nat }
    }
}

/// How many links from the first `n` nodes that have not completed lead to the node at `j`.
pub open spec fn incoming<T>(ns: Seq<NodeView<T>>, j: usize, n: int) -> nat
    decreases n,
{
    if n <= 0 {
        0
    } else {
        incoming(ns, j, n - 1) + if ns[n - 1].status == Status::Ready { occurrences(ns[n - 1].out, j) } else { 0nat }
    }
}

/// There is a link from the node at `a` to the node at `b`.
pub open spec fn linked<T>(ns: Seq<NodeView<T>>, a: usize, b: usize) -> bool {
    0 <= a < ns.len() && ns[a as int].out.contains(b)
}

/// `c` is a closed walk along links: each position links to the next, the last to the first.
pub open spec fn link_cycle<T>(ns: Seq<NodeView<T>>, c: Seq<usize>) -> bool {
    &&& c.len() >= 1
    &&& forall|s: int| 0 <= s < c.len() ==> linked(ns, #[trigger] c[s], c[(s + 1) % (c.len() as int)])
}

/// No closed walk along links.
pub open spec fn links_acyclic<T>(ns: Seq<NodeView<T>>) -> bool {
    forall|c: Seq<usize>| !#[trigger] link_cycle(ns, c)
}

/// The invariant of a graph: links name nodes of the graph, each node's count is the number of
/// links to it from nodes that have not completed, and the links form no cycle.
pub open spec fn graph_wf<T>(ns: Seq<NodeView<T>>) -> bool {
    &&& links_in_range(ns)
    &&& forall|j: int| 0 <= j < ns.len() ==> (#[trigger] ns[j]).ready == incoming(ns, j as usize, ns.len() as int)
    &&& links_acyclic(ns)
}

/// The node at `i` can run now: nothing holds it back and it has not completed.
pub open spec fn is_leaf<T>(n: NodeView<T>) -> bool {
    n.ready == 0 && n.status == Status::Ready
}

/// The positions of the nodes among the first `n` that can run now, in order.
pub open spec fn leaves_upto<T>(ns: Seq<NodeView<T>>, n: int) -> Seq<usize>
    decreases n,
{
    if n <= 0 {
        Seq::empty()
    } else if is_leaf(ns[n - 1]) {
        leaves_upto(ns, n - 1).push((n - 1) as usize)
    } else {
        leaves_upto(ns, n - 1)
    }
}

/// `m` decrements of `x`, each wrapping below zero.
pub open spec fn decrements(x: usize, m: nat) -> usize
    decreases m,
{
    if m == 0 {
        x
    } else {
        count_down(decrements(x, (m - 1) as nat))
    }
}

/// `n` is `o` once the node at `index` has completed: that node is marked completed and each
/// node counts down once per link to it from that node; nothing else changes.
pub open spec fn completes<T>(o: Seq<NodeView<T>>, n: Seq<NodeView<T>>, index: usize) -> bool {
    &&& n.len() == o.len()
    &&& forall|j: int|
        0 <= j < o.len() ==> {
            let a = #[trigger] o[j];
            let b = n[j];
            &&& b.data == a.data
            &&& b.out == a.out
            &&& b.status == (if j == index { Status::Complete } else { a.status })
            &&& b.ready == decrements(a.ready, occurrences(o[index as int].out, j as usize))
        }
}

impl<T> Graph<T> {
    /// The positions of the nodes that can run now, in order.
    pub fn find_leaves(&self) -> (leaves: Vec<usize>)
        ensures
            leaves@ == leaves_upto(self@, self@.len() as int),
            forall|t: int|
                0 <= t < leaves@.len() ==> leaves@[t] < self@.len() && self@[leaves@[t] as int].ready == 0
                    && self@[leaves@[t] as int].status == Status::Ready,
            forall|s: int, t: int| 0 <= s < t < leaves@.len() ==> leaves@[s] < leaves@[t],
            leaves@.no_duplicates(),
            forall|i: int|
                0 <= i < self@.len() && self@[i].ready == 0 && self@[i].status == Status::Ready ==> leaves@.contains(i as usize),
    {
        let mut leaves: Vec<usize> = Vec::new();
        let mut i: usize = 0;
        while i < self.nodes.len()
            invariant
                0 <= i <= self.nodes@.len(),
                leaves@ == leaves_upto(self@, i as int),
            decreases self.nodes.len() - i,
        {
            if self.nodes[i].is_ready() {
                leaves.push(i);
            }
            i += 1;
        }
        proof {
            assert(self@.len() == self.nodes@.len());
            lemma_leaves_exact(self@, self@.len() as int);
        }
        leaves
    }

    /// The nodes, in the graph's order.
    pub fn nodes(&self) -> (nodes: &Vec<Node<T>>)
        ensures
            views(nodes@) == self@,
    {
        &self.nodes
    }

    /// Completes the node at `index`: marks it completed and counts down, once per link, each
    /// node it links to.
    pub fn complete(&mut self, index: usize)
        requires
            index < old(self)@.len(),
            links_in_range(old(self)@),
        ensures
            completes(old(self)@, final(self)@, index),
            graph_wf(old(self)@) && old(self)@[index as int].status == Status::Ready ==> graph_wf(final(self)@),
    {
        let ghost ns0 = self@;
        self.nodes[index].complete();
        let ghost out = ns0[index as int].out;
        proof {
            assert(self@[index as int].out == out);
        }
        let mut k: usize = 0;
        while k < self.nodes[index].out_degree()
            invariant
                0 <= k <= out.len(),
                index < self.nodes@.len(),
                self.nodes@.len() == ns0.len(),
                links_in_range(ns0),
                out == ns0[index as int].out,
                self@[index as int].out == out,
                forall|j: int|
                    0 <= j < ns0.len() ==> {
                        let o = #[trigger] ns0[j];
                        let n = self@[j];
                        &&& n.data == o.data
                        &&& n.out == o.out
                        &&& n.status == (if j == index { Status::Complete } else { o.status })
                        &&& n.ready == decrements(o.ready, occurrences(out.take(k as int), j as usize))
                    },
            decreases out.len() - k,
        {
            let neighbour = self.nodes[index].neighbour_at(k);
            proof {
                assert(links_within(ns0, ns0[index as int]));
                assert(out[k as int] == neighbour);
            }
            let ghost before = self@;
            let ghost before_nodes = self.nodes@;
            self.nodes[neighbour].make_one_ready();
            proof {
                assert(self.nodes@ == before_nodes.update(neighbour as int, self.nodes@[neighbour as int]));
                assert(out.take(k + 1).drop_last() =~= out.take(k as int));
                assert(out.take(k + 1).last() == neighbour);
                assert forall|j: int| 0 <= j < ns0.len() implies {
                    let o = #[trigger] ns0[j];
                    let n = self@[j];
                    &&& n.data == o.data
                    &&& n.out == o.out
                    &&& n.status == (if j == index { Status::Complete } else { o.status })
                    &&& n.ready == decrements(o.ready, occurrences(out.take(k + 1), j as usize))
                } by {
                    assert(self@[j] == self.nodes@[j]@);
                    assert(before[j] == before_nodes[j]@);
                    let o = ns0[j];
                    assert(self.nodes.len() == self.nodes@.len());
                    assert(j < usize::MAX);
                    if j != neighbour {
                        assert(self.nodes@[j] == before_nodes[j]);
                        assert(j as usize != neighbour);
                        assert(occurrences(out.take(k + 1), j as usize) == occurrences(out.take(k as int), j as usize));
                    } else {
                        assert(j as usize == neighbour);
                        assert(occurrences(out.take(k + 1), j as usize) == occurrences(out.take(k as int), j as usize) + 1);
                        let m = occurrences(out.take(k as int), j as usize);
                        assert(decrements(ns0[j].ready, m + 1) == count_down(decrements(ns0[j].ready, m)));
                        assert(before_nodes[j]@.ready == decrements(ns0[j].ready, m));
                        assert(self.nodes@[j]@.ready == count_down(before_nodes[j]@.ready));
                        assert(self.nodes@[j]@.status == before_nodes[j]@.status);
                        assert(self.nodes@[j]@.out == before_nodes[j]@.out);
                        assert(self.nodes@[j]@.data == before_nodes[j]@.data);
                    }
                }
            }
            k += 1;
        }
        proof {
            assert(out.take(k as int) =~= out);
            if graph_wf(ns0) && ns0[index as int].status == Status::Ready {
                lemma_complete_wf(ns0, self@, index as int);
            }
        }
    }
}

/// `incoming` counts each node's contribution once.
proof fn lemma_incoming_complete<T>(a: Seq<NodeView<T>>, b: Seq<NodeView<T>>, i: int, j: usize, n: int)
    requires
        a.len() == b.len(),
        0 <= i < a.len(),
        0 <= n <= a.len(),
        a[i].status == Status::Ready,
        b[i].status == Status::Complete,
        b[i].out == a[i].out,
        forall|t: int| 0 <= t < a.len() && t != i ==> (#[trigger] b[t]).status == a[t].status && b[t].out == a[t].out,
    ensures
        incoming(b, j, n) + (if i < n { occurrences(a[i].out, j) } else { 0nat }) == incoming(a, j, n),
    decreases n,
{
    if n > 0 {
        lemma_incoming_complete(a, b, i, j, n - 1);
    }
}

/// Counting down a count that is at least the number of steps never wraps.
proof fn lemma_decrements(x: usize, m: nat)
    requires
        m <= x,
    ensures
        decrements(x, m) == x - m,
    decreases m,
{
    if m > 0 {
        lemma_decrements(x, (m - 1) as nat);
    }
}

/// Completing a node that had not completed keeps the graph well formed.
proof fn lemma_complete_wf<T>(a: Seq<NodeView<T>>, b: Seq<NodeView<T>>, i: int)
    requires
        graph_wf(a),
        0 <= i < a.len(),
        a[i].status == Status::Ready,
        b.len() == a.len(),
        forall|j: int|
            0 <= j < a.len() ==> {
                let o = #[trigger] a[j];
                let n = b[j];
                &&& n.data == o.data
                &&& n.out == o.out
                &&& n.status == (if j == i { Status::Complete } else { o.status })
                &&& n.ready == decrements(o.ready, occurrences(a[i].out, j as usize))
            },
    ensures
        graph_wf(b),
{
    assert forall|t: int| 0 <= t < a.len() && t != i implies (#[trigger] b[t]).status == a[t].status && b[t].out == a[t].out by {
        assert(b[t].status == a[t].status);
    }
    assert(b[i].out == a[i].out);
    assert forall|k: int| 0 <= k < b.len() implies links_within(b, #[trigger] b[k]) by {
        assert(links_within(a, a[k]));
        assert(b[k].out == a[k].out);
    }
    assert forall|j: int| 0 <= j < b.len() implies (#[trigger] b[j]).ready == incoming(b, j as usize, b.len() as int) by {
        lemma_incoming_complete(a, b, i, j as usize, a.len() as int);
        assert(a[j].ready == incoming(a, j as usize, a.len() as int));
        lemma_decrements(a[j].ready, occurrences(a[i].out, j as usize));
    }
    assert forall|c: Seq<usize>| !#[trigger] link_cycle(b, c) by {
        if link_cycle(b, c) {
            assert forall|s: int| 0 <= s < c.len() implies linked(a, #[trigger] c[s], c[(s + 1) % (c.len() as int)]) by {
                assert(linked(b, c[s], c[(s + 1) % (c.len() as int)]));
                assert(b[c[s] as int].out == a[c[s] as int].out);
            }
            assert(link_cycle(a, c));
        }
    }
}

/// A node that some node not completed links to has a count above zero, and back: a link held
/// against a node comes from a node that has not completed.
proof fn lemma_incoming_witness<T>(ns: Seq<NodeView<T>>, j: usize, n: int)
    requires
        0 <= n <= ns.len(),
        incoming(ns, j, n) > 0,
    ensures
        exists|i: int| 0 <= i < n && #[trigger] ns[i].status == Status::Ready && ns[i].out.contains(j),
    decreases n,
{
    if incoming(ns, j, n - 1) > 0 {
        lemma_incoming_witness(ns, j, n - 1);
    } else {
        let i = n - 1;
        assert(occurrences(ns[i].out, j) > 0);
        lemma_occurrence_witness(ns[i].out, j);
        assert(ns[i].status == Status::Ready);
    }
}

proof fn lemma_occurrence_witness(out: Seq<usize>, j: usize)
    requires
        occurrences(out, j) > 0,
    ensures
        out.contains(j),
    decreases out.len(),
{
    if out.last() == j {
        assert(out[out.len() - 1] == j);
    } else {
        lemma_occurrence_witness(out.drop_last(), j);
        let t = choose|t: int| 0 <= t < out.drop_last().len() && out.drop_last()[t] == j;
        assert(out[t] == j);
    }
}

/// Walking back from `start` along links from nodes that have not completed.
spec fn walk_back<T>(ns: Seq<NodeView<T>>, start: usize, t: nat) -> usize
    decreases t,
{
    if t == 0 {
        start
    } else {
        let next = walk_back(ns, start, (t - 1) as nat);
        choose|i: usize| i < ns.len() && ns[i as int].status == Status::Ready && ns[i as int].out.contains(next)
    }
}

/// The node at `j`, not completed, is held back by another node not completed.
spec fn held<T>(ns: Seq<NodeView<T>>, j: usize) -> bool {
    exists|i: usize| i < ns.len() && ns[i as int].status == Status::Ready && ns[i as int].out.contains(j)
}

proof fn lemma_walk_back<T>(ns: Seq<NodeView<T>>, start: usize, t: nat)
    requires
        start < ns.len(),
        ns[start as int].status == Status::Ready,
        forall|j: usize| j < ns.len() && ns[j as int].status == Status::Ready ==> #[trigger] held(ns, j),
    ensures
        walk_back(ns, start, t) < ns.len(),
        ns[walk_back(ns, start, t) as int].status == Status::Ready,
        t >= 1 ==> linked(ns, walk_back(ns, start, t), walk_back(ns, start, (t - 1) as nat)),
    decreases t,
{
    if t > 0 {
        lemma_walk_back(ns, start, (t - 1) as nat);
        let next = walk_back(ns, start, (t - 1) as nat);
        assert(held(ns, next));
    }
}

/// Law: while some node of a well-formed graph has not completed, some node can run now, and
/// `find_leaves` lists it.
pub proof fn lemma_graph_has_leaf<T>(ns: Seq<NodeView<T>>)
    requires
        graph_wf(ns),
        ns.len() <= usize::MAX,
        exists|i: int| 0 <= i < ns.len() && #[trigger] ns[i].status == Status::Ready,
    ensures
        exists|i: int| 0 <= i < ns.len() && #[trigger] is_leaf(ns[i]),
        leaves_upto(ns, ns.len() as int).len() > 0,
{
    let n = ns.len() as int;
    if !exists|i: int| 0 <= i < n && #[trigger] is_leaf(ns[i]) {
        assert forall|j: usize| j < ns.len() && ns[j as int].status == Status::Ready implies #[trigger] held(ns, j) by {
            assert(!is_leaf(ns[j as int]));
            assert(ns[j as int].ready == incoming(ns, j, n));
            lemma_incoming_witness(ns, j, n);
            let i = choose|i: int| 0 <= i < n && #[trigger] ns[i].status == Status::Ready && ns[i].out.contains(j);
            assert(ns[i as usize as int] == ns[i]);
        }
        let s0 = choose|i: int| 0 <= i < n && #[trigger] ns[i].status == Status::Ready;
        let start = s0 as usize;
        let b = Seq::new((n + 1) as nat, |t: int| walk_back(ns, start, t as nat) as int);
        assert forall|t: int| 0 <= t < b.len() implies 0 <= #[trigger] b[t] < n by {
            lemma_walk_back(ns, start, t as nat);
        }
        // more steps than nodes: some node repeats
        vstd::set_lib::lemma_int_range(0, n);
        assert(b.to_set().subset_of(vstd::set_lib::set_int_range(0, n))) by {
            assert forall|x: int| b.to_set().contains(x) implies vstd::set_lib::set_int_range(0, n).contains(x) by {
                let t = choose|t: int| 0 <= t < b.len() && b[t] == x;
            }
        }
        vstd::set_lib::lemma_len_subset(b.to_set(), vstd::set_lib::set_int_range(0, n));
        if b.no_duplicates() {
            b.unique_seq_to_set();
        }
        let (x, y) = choose|x: int, y: int| 0 <= x < b.len() && 0 <= y < b.len() && x != y && b[x] == b[y];
        let (lo, hi) = if x < y { (x, y) } else { (y, x) };
        let len = hi - lo;
        let c = Seq::new(len as nat, |s: int| walk_back(ns, start, (hi - s) as nat));
        assert forall|s: int| 0 <= s < c.len() implies linked(ns, #[trigger] c[s], c[(s + 1) % (c.len() as int)]) by {
            lemma_walk_back(ns, start, (hi - s) as nat);
            if s < len - 1 {
                vstd::arithmetic::div_mod::lemma_small_mod((s + 1) as nat, len as nat);
                assert((hi - s - 1) as nat == (hi - (s + 1)) as nat);
            } else {
                vstd::arithmetic::div_mod::lemma_mod_self_0(len);
                assert(((hi - s) - 1) as nat == lo as nat);
                assert(b[hi] == b[lo]);
                assert(walk_back(ns, start, hi as nat) == walk_back(ns, start, lo as nat));
            }
        }
        assert(link_cycle(ns, c));
    }
    let i = choose|i: int| 0 <= i < n && #[trigger] is_leaf(ns[i]);
    lemma_leaves_listed(ns, n, i);
}

/// A node that can run now is listed by `find_leaves`.
pub proof fn lemma_leaves_listed<T>(ns: Seq<NodeView<T>>, n: int, i: int)
    requires
        0 <= i < n <= ns.len(),
        is_leaf(ns[i]),
    ensures
        leaves_upto(ns, n).contains(i as usize),
    decreases n,
{
    if i < n - 1 {
        lemma_leaves_listed(ns, n - 1, i);
        let t = choose|t: int| 0 <= t < leaves_upto(ns, n - 1).len() && #[trigger] leaves_upto(ns, n - 1)[t] == i as usize;
        if is_leaf(ns[n - 1]) {
            assert(leaves_upto(ns, n)[t] == i as usize);
        }
    } else {
        let l = leaves_upto(ns, n);
        assert(l[l.len() - 1] == i as usize);
    }
}

/// Step `s` of a run completes the node picked, which could run.
pub open spec fn run_step<T>(run: Seq<Seq<NodeView<T>>>, picks: Seq<usize>, s: int) -> bool {
    &&& picks[s] < run[s].len()
    &&& is_leaf(run[s][picks[s] as int])
    &&& completes(run[s], run[s + 1], picks[s])
}

/// The state after `t` steps of a run: well formed, and the nodes completed are the ones picked.
proof fn lemma_run_prefix<T>(run: Seq<Seq<NodeView<T>>>, picks: Seq<usize>, t: int)
    requires
        run.len() == picks.len() + 1,
        graph_wf(run[0]),
        run[0].len() <= usize::MAX,
        forall|i: int| 0 <= i < run[0].len() ==> (#[trigger] run[0][i]).status == Status::Ready,
        forall|s: int| 0 <= s < picks.len() ==> #[trigger] run_step(run, picks, s),
        0 <= t <= picks.len(),
    ensures
        graph_wf(run[t]),
        run[t].len() == run[0].len(),
        picks.take(t).no_duplicates(),
        forall|i: int| 0 <= i < run[t].len() ==> ((#[trigger] run[t][i]).status == Status::Complete <==> picks.take(t).contains(i as usize)),
    decreases t,
{
    if t > 0 {
        lemma_run_prefix(run, picks, t - 1);
        let a = run[t - 1];
        let b = run[t];
        let m = picks[t - 1];
        assert(run_step(run, picks, t - 1));
        assert(completes(a, b, m));
        assert(a[m as int].status == Status::Ready);
        lemma_complete_wf(a, b, m as int);
        assert(picks.take(t) =~= picks.take(t - 1).push(m));
        assert(!picks.take(t - 1).contains(m)) by {
            if picks.take(t - 1).contains(m) {
                assert(a[m as int].status == Status::Complete);
            }
        }
        assert forall|i: int| 0 <= i < b.len() implies ((#[trigger] b[i]).status == Status::Complete <==> picks.take(t).contains(i as usize)) by {
            assert(b[i].status == (if i == m { Status::Complete } else { a[i].status }));
            if picks.take(t).contains(i as usize) && i != m as int {
                let u = choose|u: int| 0 <= u < picks.take(t).len() && #[trigger] picks.take(t)[u] == i as usize;
                assert(u < t - 1);
                assert(picks.take(t - 1)[u] == i as usize);
            }
            if picks.take(t - 1).contains(i as usize) {
                let u = choose|u: int| 0 <= u < picks.take(t - 1).len() && #[trigger] picks.take(t - 1)[u] == i as usize;
                assert(picks.take(t)[u] == i as usize);
            }
            if i == m {
                assert(picks.take(t)[t - 1] == m);
            }
        }
    }
}

/// Law: a run that completes, one after another, nodes that can run, starting from a
/// well-formed graph with nothing completed, never completes a node twice; where it ends with
/// no node that can run, it has completed every node.
pub proof fn lemma_run_completes_all<T>(run: Seq<Seq<NodeView<T>>>, picks: Seq<usize>)
    requires
        run.len() == picks.len() + 1,
        graph_wf(run[0]),
        run[0].len() <= usize::MAX,
        forall|i: int| 0 <= i < run[0].len() ==> (#[trigger] run[0][i]).status == Status::Ready,
        forall|s: int| 0 <= s < picks.len() ==> #[trigger] run_step(run, picks, s),
    ensures
        picks.no_duplicates(),
        leaves_upto(run.last(), run.last().len() as int).len() == 0 ==> forall|i: int|
            0 <= i < run[0].len() ==> #[trigger] picks.contains(i as usize),
{
    let n = picks.len() as int;
    lemma_run_prefix(run, picks, n);
    assert(picks.take(n) =~= picks);
    let last = run[n];
    assert(last == run.last());
    if leaves_upto(last, last.len() as int).len() == 0 {
        assert forall|i: int| 0 <= i < run[0].len() implies #[trigger] picks.contains(i as usize) by {
            if last[i].status != Status::Complete {
                assert(last[i].status == Status::Ready);
                lemma_graph_has_leaf(last);
            }
        }
    }
}

/// Law: the nodes listed as able to run among the first `n` are exactly the positions below `n`
/// of nodes with nothing holding them back that have not completed, each once, in increasing
/// order.
pub proof fn lemma_leaves_exact<T>(ns: Seq<NodeView<T>>, n: int)
    requires
        0 <= n <= ns.len(),
        ns.len() <= usize::MAX,
    ensures
        forall|t: int|
            0 <= t < leaves_upto(ns, n).len() ==> leaves_upto(ns, n)[t] < n && ns[leaves_upto(ns, n)[t] as int].ready == 0
                && ns[leaves_upto(ns, n)[t] as int].status == Status::Ready,
        forall|s: int, t: int| 0 <= s < t < leaves_upto(ns, n).len() ==> leaves_upto(ns, n)[s] < leaves_upto(ns, n)[t],
        leaves_upto(ns, n).no_duplicates(),
        forall|i: int| 0 <= i < n && ns[i].ready == 0 && ns[i].status == Status::Ready ==> leaves_upto(ns, n).contains(i as usize),
    decreases n,
{
    if n > 0 {
        lemma_leaves_exact(ns, n - 1);
        let l = leaves_upto(ns, n - 1);
        assert forall|i: int| 0 <= i < n && ns[i].ready == 0 && ns[i].status == Status::Ready implies leaves_upto(ns, n).contains(i as usize) by {
            if i < n - 1 {
                let t = choose|t: int| 0 <= t < l.len() && l[t] == i as usize;
                if is_leaf(ns[n - 1]) {
                    assert(leaves_upto(ns, n)[t] == i as usize);
                }
            } else {
                assert(is_leaf(ns[n - 1]));
                assert(leaves_upto(ns, n)[l.len() as int] == i as usize);
            }
        }
    }
}

} // verus!
