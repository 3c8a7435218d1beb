use vstd::prelude::*;
use crate::graph::{linked, link_cycle, links_acyclic, graph_wf, incoming, occurrences};
use crate::graph::node::{NodeView, links_in_range, links_within, datas_distinct, dfs_path, dfs_reaches, path_node, node_datas};
use crate::graph::node::status::Status;
use crate::link::Link;
use crate::graph::Graph;
use crate::graph::node::{Node, views, lemma_reach_consistent, count_up};
use crate::ordering::set_items;
use std::collections::{HashMap, HashSet};

verus! {

broadcast use vstd::std_specs::hash::group_hash_axioms;

/// A node that carries `d`, can run now and holds nothing back.
pub open spec fn fresh_node(d: u64) -> NodeView<u64> {
    NodeView { ready: 0, status: Status::Ready, data: d, out: Seq::empty() }
}

/// Some node of `ns` carries `d`.
pub open spec fn has_data(ns: Seq<NodeView<u64>>, d: u64) -> bool {
    exists|i: int| 0 <= i < ns.len() && #[trigger] ns[i].data == d
}

/// The position of the node that carries `d`, or the position just past the end where none does.
pub open spec fn index_of(ns: Seq<NodeView<u64>>, d: u64) -> int {
    if has_data(ns, d) {
        choose|i: int| 0 <= i < ns.len() && #[trigger] ns[i].data == d
    } else {
        ns.len() as int
    }
}

/// `ns` with a fresh node for `d` at its end, where no node carries `d` yet.
pub open spec fn with_node(ns: Seq<NodeView<u64>>, d: u64) -> Seq<NodeView<u64>> {
    if has_data(ns, d) {
        ns
    } else {
        ns.push(fresh_node(d))
    }
}

/// A link from `from` to `to` would close a cycle: the node carrying `to` already reaches a
/// node carrying `from`.
pub open spec fn link_closes_cycle(ns: Seq<NodeView<u64>>, from: u64, to: u64) -> bool {
    has_data(ns, to) && dfs_reaches(ns, ns[index_of(ns, to)], from, Set::empty())
}

/// The nodes once the link from `from` to `to` has been taken in. A link from a node to itself,
/// or one that would close a cycle, changes nothing. Otherwise the nodes for `to` and for `from`
/// are made where missing (in that order), the node for `to` waits for one more node, and the
/// node for `from` gains a link to it.
pub open spec fn link_step(ns: Seq<NodeView<u64>>, from: u64, to: u64) -> Seq<NodeView<u64>> {
    if from == to || link_closes_cycle(ns, from, to) {
        ns
    } else {
        let ti = index_of(ns, to);
        let ns1 = with_node(ns, to);
        let ns2 = ns1.update(ti, NodeView { ready: count_up(ns1[ti].ready), ..ns1[ti] });
        let fi = index_of(ns2, from);
        let ns3 = with_node(ns2, from);
        ns3.update(fi, NodeView { out: ns3[fi].out.push(ti as usize), ..ns3[fi] })
    }
}

/// Step `k` of `w` follows a link of `ns`.
pub open spec fn step_linked<T>(ns: Seq<NodeView<T>>, w: Seq<usize>, k: int) -> bool {
    linked(ns, w[k], w[k + 1])
}

/// `w` is a walk along links of `ns`: each position links to the next.
pub open spec fn link_walk<T>(ns: Seq<NodeView<T>>, w: Seq<usize>) -> bool {
    &&& w.len() >= 1
    &&& forall|k: int| 0 <= k < w.len() - 1 ==> #[trigger] step_linked(ns, w, k)
}

/// A walk can be shortened to one that passes no position twice, with the same ends.
proof fn lemma_simple_walk<T>(ns: Seq<NodeView<T>>, w: Seq<usize>) -> (v: Seq<usize>)
    requires
        link_walk(ns, w),
    ensures
        link_walk(ns, v),
        v.no_duplicates(),
        v[0] == w[0],
        v.last() == w.last(),
    decreases w.len(),
{
    if w.no_duplicates() {
        w
    } else {
        let (a, b) = choose|a: int, b: int| 0 <= a < w.len() && 0 <= b < w.len() && a != b && w[a] == w[b];
        let (i, j) = if a < b { (a, b) } else { (b, a) };
        let w2 = w.take(i) + w.skip(j);
        assert(w2.len() == i + w.len() - j);
        assert forall|k: int| 0 <= k < w2.len() - 1 implies #[trigger] step_linked(ns, w2, k) by {
            if k + 1 < i {
                assert(step_linked(ns, w, k));
            } else if k + 1 == i {
                assert(step_linked(ns, w, k));
                assert(w2[k + 1] == w[j]);
            } else {
                assert(w2[k] == w[k - i + j]);
                assert(w2[k + 1] == w[k + 1 - i + j]);
                assert(step_linked(ns, w, k - i + j));
            }
        }
        if i > 0 {
            assert(w2[0] == w[0]);
        } else {
            assert(w2[0] == w[j]);
        }
        assert(w2.last() == w.last());
        lemma_simple_walk(ns, w2)
    }
}

/// A walk that passes no position twice, between nodes with distinct data, is a search path
/// to the data at its end.
proof fn lemma_walk_dfs(ns: Seq<NodeView<u64>>, v: Seq<usize>)
    requires
        link_walk(ns, v),
        v.no_duplicates(),
        datas_distinct(ns),
        forall|k: int| 0 <= k < v.len() ==> 0 <= #[trigger] v[k] < ns.len(),
    ensures
        dfs_path(ns, ns[v[0] as int], ns[v.last() as int].data, Set::empty(), v.drop_first()),
{
    reveal(dfs_path);
    let p = v.drop_first();
    let start = ns[v[0] as int];
    let child = ns[v.last() as int].data;
    assert forall|k: int| 0 <= k <= p.len() implies path_node(ns, start, p, k) == ns[v[k] as int] by {
        if k > 0 {
            assert(p[k - 1] == v[k]);
        }
    }
    assert forall|k: int| 0 <= k < p.len() implies 0 <= #[trigger] p[k] < ns.len() && path_node(ns, start, p, k).out.contains(p[k]) by {
        assert(p[k] == v[k + 1]);
        assert(step_linked(ns, v, k));
        assert(path_node(ns, start, p, k) == ns[v[k] as int]);
    }
    assert(path_node(ns, start, p, p.len() as int) == ns[v[p.len() as int] as int]);
    assert forall|k: int| 0 <= k < p.len() implies (#[trigger] path_node(ns, start, p, k)).data != child
        && !Set::<u64>::empty().contains(path_node(ns, start, p, k).data) by {
        assert(path_node(ns, start, p, k) == ns[v[k] as int]);
        assert(v[k] != v[v.len() - 1]);
    }
    assert forall|a: int, b: int| 0 <= a < b < p.len() implies (#[trigger] path_node(ns, start, p, a)).data
        != (#[trigger] path_node(ns, start, p, b)).data by {
        assert(path_node(ns, start, p, a) == ns[v[a] as int]);
        assert(path_node(ns, start, p, b) == ns[v[b] as int]);
        assert(v[a] != v[b]);
    }
}

/// Where no node carries `d`, none is added with `with_node` but the fresh one; where one does,
/// `index_of` finds it.
proof fn lemma_index_of(ns: Seq<NodeView<u64>>, d: u64)
    ensures
        0 <= index_of(ns, d) <= ns.len(),
        has_data(ns, d) ==> index_of(ns, d) < ns.len() && ns[index_of(ns, d)].data == d,
        !has_data(ns, d) ==> index_of(ns, d) == ns.len(),
        with_node(ns, d).len() == ns.len() + (if has_data(ns, d) { 0int } else { 1int }),
        with_node(ns, d)[index_of(ns, d)].data == d,
        forall|i: int| 0 <= i < ns.len() ==> #[trigger] with_node(ns, d)[i] == ns[i],
{
}

/// In nodes with distinct data, the node carrying `d` is at `i`.
proof fn lemma_index_unique(ns: Seq<NodeView<u64>>, d: u64, i: int)
    requires
        datas_distinct(ns),
        0 <= i < ns.len(),
        ns[i].data == d,
    ensures
        has_data(ns, d),
        index_of(ns, d) == i,
{
    assert(ns[i].data == d);
}

/// `r` is `ns` with one more link, from the node at `fi` to the node at `ti`: nodes may have
/// been added at the end, with no links of their own, and the data of the nodes of `ns` stay.
pub open spec fn extends_by_link(ns: Seq<NodeView<u64>>, r: Seq<NodeView<u64>>, fi: int, ti: int) -> bool {
    &&& ns.len() <= r.len()
    &&& 0 <= fi < r.len()
    &&& 0 <= ti < r.len()
    &&& ti <= usize::MAX
    &&& forall|a: int|
        0 <= a < r.len() && a != fi ==> (#[trigger] r[a]).out == (if a < ns.len() { ns[a].out } else { Seq::<usize>::empty() })
    &&& r[fi].out == (if fi < ns.len() { ns[fi].out } else { Seq::<usize>::empty() }).push(ti as usize)
    &&& forall|a: int| 0 <= a < ns.len() ==> (#[trigger] r[a]).data == ns[a].data
}

/// A link of `r` is a link of `ns` or the one added.
proof fn lemma_extended_link(ns: Seq<NodeView<u64>>, r: Seq<NodeView<u64>>, fi: int, ti: int, a: usize, b: usize)
    requires
        extends_by_link(ns, r, fi, ti),
        linked(r, a, b),
    ensures
        (a == fi && b == ti) || (a < ns.len() && linked(ns, a, b)),
{
    if a != fi {
        assert(r[a as int].out == (if a < ns.len() { ns[a as int].out } else { Seq::<usize>::empty() }));
    } else {
        let base = if fi < ns.len() { ns[fi].out } else { Seq::<usize>::empty() };
        assert(r[fi].out == base.push(ti as usize));
        if b != ti {
            let k = choose|k: int| 0 <= k < r[fi].out.len() && #[trigger] r[fi].out[k] == b;
            assert(k < base.len());
            assert(base[k] == b);
        }
    }
}

/// Read from just after position `s`, a closed walk is a walk that ends at position `s`.
proof fn lemma_cycle_unrolled<T>(ns: Seq<NodeView<T>>, c: Seq<usize>, s: int) -> (w: Seq<usize>)
    requires
        link_cycle(ns, c),
        0 <= s < c.len(),
        c.len() >= 2,
    ensures
        link_walk(ns, w),
        w.len() == c.len(),
        w[0] == c[(s + 1) % (c.len() as int)],
        w.last() == c[s],
{
    let l = c.len() as int;
    vstd::arithmetic::div_mod::lemma_small_mod(1, l as nat);
    let w = Seq::new(l as nat, |k: int| c[(s + 1 + k) % l]);
    assert forall|k: int| 0 <= k < w.len() - 1 implies #[trigger] step_linked(ns, w, k) by {
        let t = (s + 1 + k) % l;
        vstd::arithmetic::div_mod::lemma_mod_bound(s + 1 + k, l);
        assert(linked(ns, c[t], c[(t + 1) % l]));
        vstd::arithmetic::div_mod::lemma_add_mod_noop(s + 1 + k, 1, l);
        assert((t + 1) % l == (s + 1 + (k + 1)) % l);
    }
    vstd::arithmetic::div_mod::lemma_mod_add_multiples_vanish(s, l);
    vstd::arithmetic::div_mod::lemma_small_mod(s as nat, l as nat);
    assert(w[l - 1] == c[(s + l) % l]);
    w
}

/// A walk of `r` from the node at `ti` to the node at `fi` that passes no position twice is a
/// walk of `ns`, so the node at `ti` reaches the data at `fi` in `ns`.
proof fn lemma_walk_to_added(ns: Seq<NodeView<u64>>, r: Seq<NodeView<u64>>, fi: int, ti: int, v: Seq<usize>)
    requires
        extends_by_link(ns, r, fi, ti),
        links_in_range(ns),
        datas_distinct(ns),
        link_walk(r, v),
        v.no_duplicates(),
        v[0] == ti,
        v.last() == fi,
        fi != ti,
    ensures
        ti < ns.len() && fi < ns.len(),
        dfs_reaches(ns, ns[ti], ns[fi].data, Set::empty()),
{
    assert(v.len() >= 2);
    assert forall|k: int| 0 <= k < v.len() - 1 implies #[trigger] v[k] != fi && v[k] < ns.len() && linked(ns, v[k], v[k + 1]) by {
        assert(v[k] != v[v.len() - 1]);
        assert(step_linked(r, v, k));
        lemma_extended_link(ns, r, fi, ti, v[k], v[k + 1]);
    }
    assert forall|k: int| 0 <= k < v.len() implies 0 <= #[trigger] v[k] < ns.len() by {
        if k < v.len() - 1 {
            assert(v[k] != fi);
        } else {
            assert(v[k - 1] != fi);
            assert(linked(ns, v[k - 1], v[k]));
            assert(links_within(ns, ns[v[k - 1] as int]));
            let t = choose|t: int| 0 <= t < ns[v[k - 1] as int].out.len() && #[trigger] ns[v[k - 1] as int].out[t] == v[k];
        }
    }
    assert forall|k: int| 0 <= k < v.len() - 1 implies #[trigger] step_linked(ns, v, k) by {
        assert(v[k] != fi);
    }
    lemma_walk_dfs(ns, v);
    assert(v[v.len() - 1] == fi);
}

/// A closed walk of `r` is one of `ns`, or passes the added link, which then leads back from
/// the node at `ti` to the node at `fi` in `ns`.
proof fn lemma_extended_cycle(ns: Seq<NodeView<u64>>, r: Seq<NodeView<u64>>, fi: int, ti: int, c: Seq<usize>)
    requires
        extends_by_link(ns, r, fi, ti),
        links_in_range(ns),
        datas_distinct(ns),
        fi != ti,
        link_cycle(r, c),
    ensures
        link_cycle(ns, c) || (ti < ns.len() && fi < ns.len() && dfs_reaches(ns, ns[ti], ns[fi].data, Set::empty())),
{
    let l = c.len() as int;
    if exists|s: int| 0 <= s < l && #[trigger] c[s] == fi && c[(s + 1) % l] == ti {
        let s = choose|s: int| 0 <= s < l && #[trigger] c[s] == fi && c[(s + 1) % l] == ti;
        if l == 1 {
            vstd::arithmetic::div_mod::lemma_mod_self_0(1);
            assert(c[(s + 1) % l] == c[s]);
        }
        let w = lemma_cycle_unrolled(r, c, s);
        let v = lemma_simple_walk(r, w);
        lemma_walk_to_added(ns, r, fi, ti, v);
    } else {
        assert forall|s: int| 0 <= s < l implies linked(ns, #[trigger] c[s], c[(s + 1) % l]) by {
            assert(linked(r, c[s], c[(s + 1) % l]));
            lemma_extended_link(ns, r, fi, ti, c[s], c[(s + 1) % l]);
        }
    }
}

/// Adding a link from the node at `fi` to the node at `ti` closes no cycle where the node at
/// `ti` reaches no node carrying the data at `fi`.
proof fn lemma_extended_acyclic(ns: Seq<NodeView<u64>>, r: Seq<NodeView<u64>>, fi: int, ti: int)
    requires
        extends_by_link(ns, r, fi, ti),
        links_in_range(ns),
        links_acyclic(ns),
        datas_distinct(ns),
        fi != ti,
        ti < ns.len() && fi < ns.len() ==> !dfs_reaches(ns, ns[ti], ns[fi].data, Set::empty()),
    ensures
        links_acyclic(r),
{
    assert forall|c: Seq<usize>| !#[trigger] link_cycle(r, c) by {
        if link_cycle(r, c) {
            lemma_extended_cycle(ns, r, fi, ti, c);
        }
    }
}

/// How many times `j` occurs grows by one when `j` is pushed.
proof fn lemma_occurrences_push(out: Seq<usize>, t: usize, j: usize)
    ensures
        occurrences(out.push(t), j) == occurrences(out, j) + (if t == j { 1nat } else { 0nat }),
{
    assert(out.push(t).drop_last() =~= out);
}

/// A position that no link names has no incoming link.
proof fn lemma_occurrences_absent(out: Seq<usize>, j: usize)
    requires
        !out.contains(j),
    ensures
        occurrences(out, j) == 0,
    decreases out.len(),
{
    if out.len() > 0 {
        assert(out.drop_last().len() < out.len());
        if out.drop_last().contains(j) {
            let k = choose|k: int| 0 <= k < out.drop_last().len() && #[trigger] out.drop_last()[k] == j;
            assert(out[k] == j);
        }
        lemma_occurrences_absent(out.drop_last(), j);
        assert(out[out.len() - 1] == out.last());
    }
}

/// Nothing links to a position past the end of nodes whose links stay within them.
proof fn lemma_incoming_outside<T>(ns: Seq<NodeView<T>>, j: usize, n: int)
    requires
        links_in_range(ns),
        0 <= n <= ns.len(),
        j >= ns.len(),
    ensures
        incoming(ns, j, n) == 0,
    decreases n,
{
    if n > 0 {
        lemma_incoming_outside(ns, j, n - 1);
        assert(links_within(ns, ns[n - 1]));
        if ns[n - 1].out.contains(j) {
            let k = choose|k: int| 0 <= k < ns[n - 1].out.len() && #[trigger] ns[n - 1].out[k] == j;
        }
        lemma_occurrences_absent(ns[n - 1].out, j);
    }
}

/// Counting the links to `j` among the first `n` nodes of `r`: those of `ns`, and the added one.
proof fn lemma_incoming_extended(ns: Seq<NodeView<u64>>, r: Seq<NodeView<u64>>, fi: int, ti: int, j: usize, n: int)
    requires
        extends_by_link(ns, r, fi, ti),
        0 <= n <= r.len(),
        forall|i: int| 0 <= i < ns.len() ==> (#[trigger] ns[i]).status == Status::Ready,
        forall|i: int| 0 <= i < r.len() ==> (#[trigger] r[i]).status == Status::Ready,
    ensures
        incoming(r, j, n) == incoming(ns, j, if n < ns.len() { n } else { ns.len() as int })
            + (if fi < n && j == ti { 1nat } else { 0nat }),
    decreases n,
{
    if n > 0 {
        lemma_incoming_extended(ns, r, fi, ti, j, n - 1);
        let a = n - 1;
        if a != fi {
            assert(r[a].out == (if a < ns.len() { ns[a].out } else { Seq::<usize>::empty() }));
        } else {
            let base = if fi < ns.len() { ns[fi].out } else { Seq::<usize>::empty() };
            lemma_occurrences_push(base, ti as usize, j);
        }
    }
}

/// What a build keeps as it goes, after `count` links: the invariant of a graph, distinct data,
/// no node completed, no count above the links taken in, and at most two nodes per link.
pub open spec fn build_inv(ns: Seq<NodeView<u64>>, count: nat) -> bool {
    &&& graph_wf(ns)
    &&& datas_distinct(ns)
    &&& forall|i: int| 0 <= i < ns.len() ==> (#[trigger] ns[i]).status == Status::Ready && ns[i].ready <= count
    &&& ns.len() <= 2 * count
}

/// Some node carries `d` exactly where `d` is among the data of the nodes.
proof fn lemma_has_data(ns: Seq<NodeView<u64>>, d: u64)
    ensures
        has_data(ns, d) == node_datas(ns).contains(d),
{
    let m = ns.map_values(|n: NodeView<u64>| n.data);
    if has_data(ns, d) {
        let i = choose|i: int| 0 <= i < ns.len() && #[trigger] ns[i].data == d;
        assert(m[i] == d);
    }
    if node_datas(ns).contains(d) {
        let i = choose|i: int| 0 <= i < m.len() && #[trigger] m[i] == d;
        assert(ns[i].data == d);
    }
}

/// A search that reaches `child` from a node not carrying it ends at a node that carries it.
proof fn lemma_reached_has_data(ns: Seq<NodeView<u64>>, start: NodeView<u64>, child: u64, seen: Set<u64>)
    requires
        dfs_reaches(ns, start, child, seen),
        start.data != child,
    ensures
        has_data(ns, child),
{
    reveal(dfs_path);
    let p = choose|p: Seq<usize>| #[trigger] dfs_path(ns, start, child, seen, p);
    assert(path_node(ns, start, p, p.len() as int).data == child);
    assert(p.len() > 0);
    let i = p[p.len() - 1] as int;
    assert(0 <= p[p.len() - 1] < ns.len());
    assert(ns[i].data == child);
}

/// The shape of a step that takes a link in.
proof fn lemma_step_shape(ns: Seq<NodeView<u64>>, from: u64, to: u64, count: nat)
    requires
        build_inv(ns, count),
        2 * count + 2 <= usize::MAX,
        from != to,
        !link_closes_cycle(ns, from, to),
    ensures
        extends_by_link(ns, link_step(ns, from, to), index_of(with_node(ns, to), from), index_of(ns, to)),
        index_of(with_node(ns, to), from) != index_of(ns, to),
        link_step(ns, from, to)[index_of(ns, to)].data == to,
        link_step(ns, from, to)[index_of(with_node(ns, to), from)].data == from,
        link_step(ns, from, to).len() <= ns.len() + 2,
        forall|a: int| 0 <= a < link_step(ns, from, to).len() ==> (#[trigger] link_step(ns, from, to)[a]).status == Status::Ready,
        forall|a: int| 0 <= a < link_step(ns, from, to).len() ==> (#[trigger] link_step(ns, from, to)[a]).ready == (
            if a == index_of(ns, to) {
                count_up(if a < ns.len() { ns[a].ready } else { 0 })
            } else if a < ns.len() {
                ns[a].ready
            } else {
                0
            }),
        forall|a: int| 0 <= a < link_step(ns, from, to).len() ==> (#[trigger] link_step(ns, from, to)[a]).data == (
            if a < ns.len() { ns[a].data } else if a == index_of(ns, to) { to } else { from }),
{
    let ti = index_of(ns, to);
    let ns1 = with_node(ns, to);
    let ns2 = ns1.update(ti, NodeView { ready: count_up(ns1[ti].ready), ..ns1[ti] });
    lemma_index_of(ns, to);
    lemma_index_of(ns2, from);
    lemma_index_of(ns1, from);
    assert forall|d: u64| has_data(ns1, d) == has_data(ns2, d) by {
        if has_data(ns1, d) {
            let i = choose|i: int| 0 <= i < ns1.len() && #[trigger] ns1[i].data == d;
            assert(ns2[i].data == d);
        }
        if has_data(ns2, d) {
            let i = choose|i: int| 0 <= i < ns2.len() && #[trigger] ns2[i].data == d;
            assert(ns1[i].data == d);
        }
    }
    assert(index_of(ns1, from) == index_of(ns2, from)) by {
        if has_data(ns1, from) {
            assert((|i: int| 0 <= i < ns1.len() && ns1[i].data == from) =~= (|i: int| 0 <= i < ns2.len() && ns2[i].data == from));
        }
    }
    let fi = index_of(ns2, from);
    let ns3 = with_node(ns2, from);
    let r = ns3.update(fi, NodeView { out: ns3[fi].out.push(ti as usize), ..ns3[fi] });
    assert(r == link_step(ns, from, to));
    assert(ns2[ti].data == to);
    assert(fi != ti);
    assert forall|a: int| 0 <= a < r.len() && a != fi implies (#[trigger] r[a]).out == (if a < ns.len() { ns[a].out } else { Seq::<usize>::empty() }) by {
        assert(a < ns2.len());
        assert(r[a] == ns2[a]);
        assert(ns2[a].out == ns1[a].out);
    }
}

/// A step that takes a link in keeps the links within the nodes and the data distinct.
proof fn lemma_step_links_data(ns: Seq<NodeView<u64>>, from: u64, to: u64, count: nat)
    requires
        build_inv(ns, count),
        2 * count + 2 <= usize::MAX,
        from != to,
        !link_closes_cycle(ns, from, to),
    ensures
        links_in_range(link_step(ns, from, to)),
        datas_distinct(link_step(ns, from, to)),
{
    let r = link_step(ns, from, to);
    lemma_step_shape(ns, from, to, count);
    lemma_index_of(ns, to);
    lemma_index_of(with_node(ns, to), from);
    let ti = index_of(ns, to);
    let fi = index_of(with_node(ns, to), from);
    assert forall|i: int| 0 <= i < r.len() implies links_within(r, #[trigger] r[i]) by {
        if i != fi {
            if i < ns.len() {
                assert(links_within(ns, ns[i]));
            }
        } else {
            let base = if fi < ns.len() { ns[fi].out } else { Seq::<usize>::empty() };
            if fi < ns.len() {
                assert(links_within(ns, ns[fi]));
            }
            assert forall|k: int| 0 <= k < r[i].out.len() implies 0 <= #[trigger] r[i].out[k] < r.len() by {
                if k < base.len() {
                    assert(r[i].out[k] == base[k]);
                }
            }
        }
    }
    assert forall|i: int, j: int| 0 <= i < r.len() && 0 <= j < r.len() && i != j implies #[trigger] r[i].data != #[trigger] r[j].data by {
        if i < ns.len() && j < ns.len() {
            assert(ns[i].data != ns[j].data);
        } else if i < ns.len() {
            if j == ti {
                assert(!has_data(ns, to));
            } else {
                assert(!has_data(with_node(ns, to), from));
                assert(with_node(ns, to)[i].data == ns[i].data);
            }
        } else if j < ns.len() {
            if i == ti {
                assert(!has_data(ns, to));
            } else {
                assert(!has_data(with_node(ns, to), from));
                assert(with_node(ns, to)[j].data == ns[j].data);
            }
        }
    }
}

/// A step that takes a link in keeps each count equal to the links held against its node.
proof fn lemma_step_counts(ns: Seq<NodeView<u64>>, from: u64, to: u64, count: nat)
    requires
        build_inv(ns, count),
        2 * count + 2 <= usize::MAX,
        from != to,
        !link_closes_cycle(ns, from, to),
    ensures
        forall|j: int| 0 <= j < link_step(ns, from, to).len() ==>
            (#[trigger] link_step(ns, from, to)[j]).ready == incoming(link_step(ns, from, to), j as usize, link_step(ns, from, to).len() as int)
            && link_step(ns, from, to)[j].ready <= count + 1,
{
    let r = link_step(ns, from, to);
    lemma_step_shape(ns, from, to, count);
    lemma_index_of(ns, to);
    let ti = index_of(ns, to);
    let fi = index_of(with_node(ns, to), from);
    assert forall|j: int| 0 <= j < r.len() implies (#[trigger] r[j]).ready == incoming(r, j as usize, r.len() as int) && r[j].ready <= count + 1 by {
        lemma_incoming_extended(ns, r, fi, ti, j as usize, r.len() as int);
        if j < ns.len() {
            assert(ns[j].ready == incoming(ns, j as usize, ns.len() as int));
        } else {
            lemma_incoming_outside(ns, j as usize, ns.len() as int);
        }
    }
}

/// A step that takes a link in adds its ends, where they differ, to the data of the nodes.
proof fn lemma_step_datas(ns: Seq<NodeView<u64>>, from: u64, to: u64, count: nat)
    requires
        build_inv(ns, count),
        2 * count + 2 <= usize::MAX,
    ensures
        node_datas(link_step(ns, from, to)) == (if from == to { node_datas(ns) } else { node_datas(ns).insert(from).insert(to) }),
{
    let r = link_step(ns, from, to);
    if from == to {
    } else if link_closes_cycle(ns, from, to) {
        lemma_index_of(ns, to);
        lemma_reached_has_data(ns, ns[index_of(ns, to)], from, Set::empty());
        lemma_has_data(ns, from);
        lemma_has_data(ns, to);
        assert(node_datas(ns).insert(from).insert(to) =~= node_datas(ns));
    } else {
        lemma_step_shape(ns, from, to, count);
        lemma_index_of(ns, to);
        let ti = index_of(ns, to);
        let fi = index_of(with_node(ns, to), from);
        assert forall|x: u64| node_datas(r).contains(x) == node_datas(ns).insert(from).insert(to).contains(x) by {
            lemma_has_data(r, x);
            lemma_has_data(ns, x);
            if has_data(r, x) {
                let i = choose|i: int| 0 <= i < r.len() && #[trigger] r[i].data == x;
                if i < ns.len() {
                    assert(ns[i].data == x);
                }
            }
            if x == to {
                assert(r[ti].data == to);
            } else if x == from {
                assert(r[fi].data == from);
            } else if has_data(ns, x) {
                let i = choose|i: int| 0 <= i < ns.len() && #[trigger] ns[i].data == x;
                assert(r[i].data == x);
            }
        }
        assert(node_datas(r) =~= node_datas(ns).insert(from).insert(to));
    }
}

/// Taking a link in keeps what a build keeps, with one more link counted, and adds the ends of
/// the link, where they differ, to the data of the nodes.
proof fn lemma_link_step(ns: Seq<NodeView<u64>>, from: u64, to: u64, count: nat)
    requires
        build_inv(ns, count),
        2 * count + 2 <= usize::MAX,
    ensures
        build_inv(link_step(ns, from, to), count + 1),
        node_datas(link_step(ns, from, to)) == (if from == to { node_datas(ns) } else { node_datas(ns).insert(from).insert(to) }),
{
    lemma_step_datas(ns, from, to, count);
    if from != to && !link_closes_cycle(ns, from, to) {
        let r = link_step(ns, from, to);
        lemma_step_shape(ns, from, to, count);
        lemma_index_of(ns, to);
        let ti = index_of(ns, to);
        let fi = index_of(with_node(ns, to), from);
        if ti < ns.len() && fi < ns.len() {
            assert(ns[fi].data == from);
        }
        lemma_extended_acyclic(ns, r, fi, ti);
        lemma_step_links_data(ns, from, to, count);
        lemma_step_counts(ns, from, to, count);
    }
}

/// The nodes that `links` make, taken in from the last link to the first.
pub open spec fn built(links: Seq<Link<u64>>) -> Seq<NodeView<u64>>
    decreases links.len(),
{
    if links.len() == 0 {
        Seq::empty()
    } else {
        link_step(built(links.drop_first()), links[0].from, links[0].to)
    }
}

/// The identifiers at either end of a link that joins two different identifiers.
pub open spec fn link_ends(links: Seq<Link<u64>>) -> Set<u64> {
    Set::new(|x: u64| exists|i: int| 0 <= i < links.len() && #[trigger] links[i].from != links[i].to
        && (links[i].from == x || links[i].to == x))
}

/// The ends of the first link, where they differ, and those of the rest.
proof fn lemma_link_ends_first(links: Seq<Link<u64>>)
    requires
        links.len() > 0,
    ensures
        link_ends(links) == (if links[0].from == links[0].to { link_ends(links.drop_first()) } else {
            link_ends(links.drop_first()).insert(links[0].from).insert(links[0].to)
        }),
{
    let rest = links.drop_first();
    let e = if links[0].from == links[0].to { link_ends(rest) } else { link_ends(rest).insert(links[0].from).insert(links[0].to) };
    assert forall|x: u64| link_ends(links).contains(x) == e.contains(x) by {
        if link_ends(links).contains(x) {
            let i = choose|i: int| 0 <= i < links.len() && #[trigger] links[i].from != links[i].to
                && (links[i].from == x || links[i].to == x);
            if i > 0 {
                assert(rest[i - 1] == links[i]);
            }
        }
        if link_ends(rest).contains(x) {
            let i = choose|i: int| 0 <= i < rest.len() && #[trigger] rest[i].from != rest[i].to
                && (rest[i].from == x || rest[i].to == x);
            assert(links[i + 1] == rest[i]);
        }
    }
    assert(link_ends(links) =~= e);
}

/// Law: the nodes that links make form a well-formed graph of distinct data, nothing completed,
/// and carry exactly the ends of the links that join two different identifiers.
pub proof fn lemma_built(links: Seq<Link<u64>>)
    requires
        links.len() <= usize::MAX / 2,
    ensures
        build_inv(built(links), links.len()),
        node_datas(built(links)) == link_ends(links),
    decreases links.len(),
{
    if links.len() == 0 {
        assert(node_datas(Seq::<NodeView<u64>>::empty()) =~= Set::empty());
        assert(link_ends(links) =~= Set::empty());
        assert forall|c: Seq<usize>| !#[trigger] link_cycle(Seq::<NodeView<u64>>::empty(), c) by {
            if link_cycle(Seq::<NodeView<u64>>::empty(), c) {
                assert(linked(Seq::<NodeView<u64>>::empty(), c[0], c[(0int + 1) % (c.len() as int)]));
            }
        }
    } else {
        lemma_built(links.drop_first());
        lemma_link_step(built(links.drop_first()), links[0].from, links[0].to, (links.len() - 1) as nat);
        lemma_link_ends_first(links);
    }
}

/// What building from `world` and `links` gives: the nodes that the links make (`built`), then a
/// fresh node for each identifier of `world` that none of them carries, each once, in the order in
/// which the set hands them out.
pub open spec fn build_result(g: Seq<NodeView<u64>>, world: Set<u64>, links: Seq<Link<u64>>) -> bool {
    let b = built(links);
    &&& b.len() <= g.len()
    &&& g.take(b.len() as int) == b
    &&& forall|i: int| b.len() <= i < g.len() ==> #[trigger] g[i] == fresh_node(g[i].data)
    &&& node_datas(g.skip(b.len() as int)) == world.difference(node_datas(b))
    &&& datas_distinct(g)
}

/// Fresh nodes added after the nodes of a build keep the graph well formed.
proof fn lemma_fresh_suffix(b: Seq<NodeView<u64>>, g: Seq<NodeView<u64>>, count: nat)
    requires
        build_inv(b, count),
        b.len() <= g.len(),
        g.len() <= usize::MAX,
        g.take(b.len() as int) == b,
        forall|i: int| b.len() <= i < g.len() ==> #[trigger] g[i] == fresh_node(g[i].data),
    ensures
        graph_wf(g),
        forall|i: int| 0 <= i < g.len() ==> (#[trigger] g[i]).status == Status::Ready,
{
    assert forall|i: int| 0 <= i < b.len() implies #[trigger] g[i] == b[i] by {
        assert(g.take(b.len() as int)[i] == g[i]);
    }
    assert forall|i: int| 0 <= i < g.len() implies links_within(g, #[trigger] g[i]) by {
        if i < b.len() {
            assert(links_within(b, b[i]));
        }
    }
    assert forall|j: int| 0 <= j < g.len() implies (#[trigger] g[j]).ready == incoming(g, j as usize, g.len() as int) by {
        lemma_incoming_suffix(b, g, j as usize, g.len() as int);
        if j < b.len() {
        } else {
            lemma_incoming_outside(b, j as usize, b.len() as int);
        }
    }
    assert forall|c: Seq<usize>| !#[trigger] link_cycle(g, c) by {
        if link_cycle(g, c) {
            assert forall|s: int| 0 <= s < c.len() implies linked(b, #[trigger] c[s], c[(s + 1) % (c.len() as int)]) by {
                assert(linked(g, c[s], c[(s + 1) % (c.len() as int)]));
                if c[s] >= b.len() {
                    assert(g[c[s] as int].out.len() == 0);
                }
            }
            assert(link_cycle(b, c));
        }
    }
}

/// Nodes without links added at the end hold nothing back.
proof fn lemma_incoming_suffix(b: Seq<NodeView<u64>>, g: Seq<NodeView<u64>>, j: usize, n: int)
    requires
        b.len() <= n <= g.len(),
        forall|i: int| 0 <= i < b.len() ==> #[trigger] g[i] == b[i],
        forall|i: int| b.len() <= i < g.len() ==> #[trigger] g[i] == fresh_node(g[i].data),
    ensures
        incoming(g, j, n) == incoming(b, j, b.len() as int),
    decreases n,
{
    if n > b.len() {
        lemma_incoming_suffix(b, g, j, n - 1);
        assert(g[n - 1] == fresh_node(g[n - 1].data));
    } else {
        lemma_incoming_prefix(b, g, j, n);
    }
}

proof fn lemma_incoming_prefix(b: Seq<NodeView<u64>>, g: Seq<NodeView<u64>>, j: usize, n: int)
    requires
        0 <= n <= b.len(),
        b.len() <= g.len(),
        forall|i: int| 0 <= i < b.len() ==> #[trigger] g[i] == b[i],
    ensures
        incoming(g, j, n) == incoming(b, j, n),
    decreases n,
{
    if n > 0 {
        lemma_incoming_prefix(b, g, j, n - 1);
        assert(g[n - 1] == b[n - 1]);
    }
}

/// Law: the graph a build gives is well formed, nothing in it has completed, its data are
/// distinct, and they are exactly the identifiers of the world and the ends of the links that
/// join two different identifiers.
pub proof fn lemma_build_result(g: Seq<NodeView<u64>>, world: Set<u64>, links: Seq<Link<u64>>)
    requires
        build_result(g, world, links),
        links.len() <= usize::MAX / 2,
        g.len() <= usize::MAX,
    ensures
        graph_wf(g),
        datas_distinct(g),
        forall|i: int| 0 <= i < g.len() ==> (#[trigger] g[i]).status == Status::Ready,
        node_datas(g) == world.union(link_ends(links)),
{
    let b = built(links);
    lemma_built(links);
    lemma_fresh_suffix(b, g, links.len());
    let n = b.len() as int;
    assert(g =~= b + g.skip(n));
    assert forall|x: u64| node_datas(g).contains(x) == world.union(link_ends(links)).contains(x) by {
        lemma_has_data(g, x);
        lemma_has_data(b, x);
        lemma_has_data(g.skip(n), x);
        if has_data(g, x) {
            let i = choose|i: int| 0 <= i < g.len() && #[trigger] g[i].data == x;
            if i < n {
                assert(b[i].data == x);
            } else {
                assert(g.skip(n)[i - n].data == x);
            }
        }
        if has_data(b, x) {
            let i = choose|i: int| 0 <= i < b.len() && #[trigger] b[i].data == x;
            assert(g[i].data == x);
        }
        if has_data(g.skip(n), x) {
            let i = choose|i: int| 0 <= i < g.skip(n).len() && #[trigger] g.skip(n)[i].data == x;
            assert(g[i + n].data == x);
        }
    }
    assert(node_datas(g) =~= world.union(link_ends(links)));
}

proof fn lemma_views_push(nodes: Seq<Node<u64>>, n: Node<u64>)
    ensures
        views(nodes.push(n)) == views(nodes).push(n@),
{
    assert(views(nodes.push(n)) =~= views(nodes).push(n@));
}

proof fn lemma_views_update(nodes: Seq<Node<u64>>, i: int, n: Node<u64>)
    requires
        0 <= i < nodes.len(),
    ensures
        views(nodes.update(i, n)) == views(nodes).update(i, n@),
{
    assert(views(nodes.update(i, n)) =~= views(nodes).update(i, n@));
}

/// A fresh node for data no node carries keeps the data distinct.
proof fn lemma_with_node_distinct(ns: Seq<NodeView<u64>>, d: u64)
    requires
        datas_distinct(ns),
    ensures
        datas_distinct(with_node(ns, d)),
{
    if !has_data(ns, d) {
        let r = ns.push(fresh_node(d));
        assert forall|i: int, j: int| 0 <= i < r.len() && 0 <= j < r.len() && i != j implies #[trigger] r[i].data != #[trigger] r[j].data by {
            if i < ns.len() && j < ns.len() {
                assert(ns[i].data != ns[j].data);
            } else if i < ns.len() {
                assert(ns[i].data != d);
            } else {
                assert(ns[j].data != d);
            }
        }
    }
}

/// The position of the node that carries `d`, found by a walk over the nodes.
fn position_of(nodes: &Vec<Node<u64>>, d: u64) -> (pos: Option<usize>)
    ensures
        match pos {
            Some(i) => i < nodes@.len() && views(nodes@)[i as int].data == d,
            None => !has_data(views(nodes@), d),
        },
{
    let mut i: usize = 0;
    while i < nodes.len()
        invariant
            0 <= i <= nodes@.len(),
            forall|k: int| 0 <= k < i ==> #[trigger] views(nodes@)[k].data != d,
        decreases nodes.len() - i,
    {
        if *nodes[i].data() == d {
            return Some(i);
        }
        i += 1;
    }
    None
}

/// Takes the link from `from` to `to` in, finding nodes by a walk over them. Says whether the
/// link was taken: it is not where it would close a cycle.
fn take_link_walking(nodes: &mut Vec<Node<u64>>, from: u64, to: u64) -> (taken: bool)
    requires
        from != to,
        links_in_range(views(old(nodes)@)),
        datas_distinct(views(old(nodes)@)),
    ensures
        taken == !link_closes_cycle(views(old(nodes)@), from, to),
        views(final(nodes)@) == link_step(views(old(nodes)@), from, to),
{
    let ghost ns = views(nodes@);
    proof {
        lemma_index_of(ns, to);
    }
    let ti: usize;
    match position_of(nodes, to) {
        Some(i) => {
            proof {
                lemma_index_unique(ns, to, i as int);
                assert(links_within(ns, ns[i as int]));
                assert(Seq::<u64>::empty().to_set() =~= Set::<u64>::empty());
            }
            let all: &Vec<Node<u64>> = nodes;
            let closes = all[i].contains_child_2(all, &from, Vec::new());
            if closes {
                return false;
            }
            ti = i;
        },
        None => {
            let n = Node::new(to);
            proof {
                lemma_views_push(nodes@, n);
            }
            nodes.push(n);
            ti = nodes.len() - 1;
        },
    }
    let ghost ns1 = views(nodes@);
    assert(ns1 == with_node(ns, to));
    assert(ti as int == index_of(ns, to));
    let ghost before = nodes@;
    nodes[ti].make_one_unready();
    proof {
        assert(nodes@ == before.update(ti as int, nodes@[ti as int]));
        lemma_views_update(before, ti as int, nodes@[ti as int]);
    }
    let ghost ns2 = views(nodes@);
    assert(ns2 == ns1.update(ti as int, NodeView { ready: count_up(ns1[ti as int].ready), ..ns1[ti as int] }));
    proof {
        lemma_with_node_distinct(ns, to);
        assert forall|a: int, b: int| 0 <= a < ns2.len() && 0 <= b < ns2.len() && a != b implies #[trigger] ns2[a].data != #[trigger] ns2[b].data by {
            assert(ns1[a].data != ns1[b].data);
        }
        lemma_index_of(ns2, from);
    }
    match position_of(nodes, from) {
        Some(fi) => {
            proof {
                lemma_index_unique(ns2, from, fi as int);
            }
            let ghost before = nodes@;
            nodes[fi].insert_out_neighbour(ti);
            proof {
                assert(nodes@ == before.update(fi as int, nodes@[fi as int]));
                lemma_views_update(before, fi as int, nodes@[fi as int]);
                assert(views(nodes@) =~= link_step(ns, from, to));
            }
        },
        None => {
            let mut n = Node::new(from);
            n.insert_out_neighbour(ti);
            proof {
                lemma_views_push(nodes@, n);
            }
            nodes.push(n);
            proof {
                assert(views(nodes@) =~= link_step(ns, from, to));
            }
        },
    }
    true
}

/// `index` maps the data of each node to its position, and holds nothing else.
pub open spec fn indexes(index: Map<u64, usize>, ns: Seq<NodeView<u64>>) -> bool {
    &&& forall|d: u64| #[trigger] index.contains_key(d) == has_data(ns, d)
    &&& forall|d: u64| #[trigger] index.contains_key(d) ==> index[d] < ns.len() && ns[index[d] as int].data == d
}

/// Takes the link from `from` to `to` in, finding nodes through `index`, which it keeps up to
/// date. Says whether the link was taken: it is not where it would close a cycle.
fn take_link_indexed(nodes: &mut Vec<Node<u64>>, index: &mut HashMap<u64, usize>, from: u64, to: u64) -> (taken: bool)
    requires
        from != to,
        links_in_range(views(old(nodes)@)),
        datas_distinct(views(old(nodes)@)),
        indexes(old(index)@, views(old(nodes)@)),
    ensures
        taken == !link_closes_cycle(views(old(nodes)@), from, to),
        views(final(nodes)@) == link_step(views(old(nodes)@), from, to),
        indexes(final(index)@, views(final(nodes)@)),
{
    let ghost ns = views(nodes@);
    proof {
        lemma_index_of(ns, to);
    }
    let ti: usize;
    let found = match index.get(&to) {
        Some(i) => Some(*i),
        None => None,
    };
    match found {
        Some(i) => {
            proof {
                assert(index@.contains_key(to));
                lemma_index_unique(ns, to, i as int);
                assert(links_within(ns, ns[i as int]));
                lemma_reach_consistent(ns, i as int);
            }
            let all: &Vec<Node<u64>> = nodes;
            let mut seen: HashSet<u64> = HashSet::new();
            let closes = all[i].contains_child(all, &from, &mut seen);
            if closes {
                return false;
            }
            ti = i;
        },
        None => {
            proof {
                assert(!index@.contains_key(to));
            }
            let n = Node::new(to);
            proof {
                lemma_views_push(nodes@, n);
            }
            nodes.push(n);
            ti = nodes.len() - 1;
            index.insert(to, ti);
        },
    }
    let ghost ns1 = views(nodes@);
    assert(ns1 == with_node(ns, to));
    assert(ti as int == index_of(ns, to));
    proof {
        assert forall|d: u64| #[trigger] index@.contains_key(d) == has_data(ns1, d) by {
            if has_data(ns1, d) {
                let k = choose|k: int| 0 <= k < ns1.len() && #[trigger] ns1[k].data == d;
                if k < ns.len() {
                    assert(ns[k].data == d);
                }
            }
            if has_data(ns, d) {
                let k = choose|k: int| 0 <= k < ns.len() && #[trigger] ns[k].data == d;
                assert(ns1[k].data == d);
            }
        }
    }
    let ghost before = nodes@;
    nodes[ti].make_one_unready();
    proof {
        assert(nodes@ == before.update(ti as int, nodes@[ti as int]));
        lemma_views_update(before, ti as int, nodes@[ti as int]);
    }
    let ghost ns2 = views(nodes@);
    assert(ns2 == ns1.update(ti as int, NodeView { ready: count_up(ns1[ti as int].ready), ..ns1[ti as int] }));
    proof {
        lemma_with_node_distinct(ns, to);
        assert forall|a: int, b: int| 0 <= a < ns2.len() && 0 <= b < ns2.len() && a != b implies #[trigger] ns2[a].data != #[trigger] ns2[b].data by {
            assert(ns1[a].data != ns1[b].data);
        }
        lemma_index_of(ns2, from);
        assert forall|d: u64| #[trigger] index@.contains_key(d) == has_data(ns2, d) by {
            if has_data(ns1, d) {
                let k = choose|k: int| 0 <= k < ns1.len() && #[trigger] ns1[k].data == d;
                assert(ns2[k].data == d);
            }
            if has_data(ns2, d) {
                let k = choose|k: int| 0 <= k < ns2.len() && #[trigger] ns2[k].data == d;
                assert(ns1[k].data == d);
            }
        }
    }
    let found = match index.get(&from) {
        Some(f) => Some(*f),
        None => None,
    };
    match found {
        Some(fi) => {
            proof {
                assert(index@.contains_key(from));
                lemma_index_unique(ns2, from, fi as int);
            }
            let ghost before = nodes@;
            nodes[fi].insert_out_neighbour(ti);
            proof {
                assert(nodes@ == before.update(fi as int, nodes@[fi as int]));
                lemma_views_update(before, fi as int, nodes@[fi as int]);
                assert(views(nodes@) =~= link_step(ns, from, to));
                let ns3 = views(nodes@);
                assert forall|d: u64| #[trigger] index@.contains_key(d) == has_data(ns3, d) by {
                    if has_data(ns2, d) {
                        let k = choose|k: int| 0 <= k < ns2.len() && #[trigger] ns2[k].data == d;
                        assert(ns3[k].data == d);
                    }
                    if has_data(ns3, d) {
                        let k = choose|k: int| 0 <= k < ns3.len() && #[trigger] ns3[k].data == d;
                        assert(ns2[k].data == d);
                    }
                }
            }
        },
        None => {
            proof {
                assert(!index@.contains_key(from));
            }
            let mut n = Node::new(from);
            n.insert_out_neighbour(ti);
            proof {
                lemma_views_push(nodes@, n);
            }
            nodes.push(n);
            index.insert(from, nodes.len() - 1);
            proof {
                assert(views(nodes@) =~= link_step(ns, from, to));
                let ns3 = views(nodes@);
                assert forall|d: u64| #[trigger] index@.contains_key(d) == has_data(ns3, d) by {
                    if has_data(ns2, d) {
                        let k = choose|k: int| 0 <= k < ns2.len() && #[trigger] ns2[k].data == d;
                        assert(ns3[k].data == d);
                    }
                    if has_data(ns3, d) {
                        let k = choose|k: int| 0 <= k < ns3.len() && #[trigger] ns3[k].data == d;
                        if k < ns2.len() {
                            assert(ns2[k].data == d);
                        }
                    }
                    if d == from {
                        assert(ns3[ns3.len() - 1].data == from);
                    }
                }
            }
        },
    }
    true
}

/// Adds a fresh node for each identifier of `world`, in the order in which the set hands them
/// out.
fn add_fresh_nodes(nodes: &mut Vec<Node<u64>>, world: &HashSet<u64>)
    ensures
        views(old(nodes)@).len() <= views(final(nodes)@).len(),
        views(final(nodes)@).take(views(old(nodes)@).len() as int) == views(old(nodes)@),
        forall|i: int| views(old(nodes)@).len() <= i < views(final(nodes)@).len() ==>
            #[trigger] views(final(nodes)@)[i] == fresh_node(views(final(nodes)@)[i].data),
        node_datas(views(final(nodes)@).skip(views(old(nodes)@).len() as int)) == world@,
        forall|i: int, j: int| views(old(nodes)@).len() <= i < views(final(nodes)@).len()
            && views(old(nodes)@).len() <= j < views(final(nodes)@).len() && i != j
            ==> #[trigger] views(final(nodes)@)[i].data != #[trigger] views(final(nodes)@)[j].data,
{
    let ghost start = views(nodes@);
    let ghost n0 = nodes@.len() as int;
    let items = set_items(world);
    let mut i: usize = 0;
    while i < items.len()
        invariant
            0 <= i <= items@.len(),
            items@.to_set() == world@,
            items@.no_duplicates(),
            n0 == start.len(),
            nodes@.len() == n0 + i,
            views(nodes@).take(n0) == start,
            forall|k: int| 0 <= k < i ==> #[trigger] views(nodes@)[n0 + k] == fresh_node(items@[k]),
        decreases items.len() - i,
    {
        let n = Node::new(items[i]);
        proof {
            lemma_views_push(nodes@, n);
            assert(views(nodes@).push(n@).take(n0) =~= views(nodes@).take(n0));
        }
        nodes.push(n);
        i += 1;
    }
    let ghost g = views(nodes@);
    proof {
        let suffix = g.skip(n0);
        let d = suffix.map_values(|v: NodeView<u64>| v.data);
        assert forall|k: int| 0 <= k < items@.len() implies d[k] == items@[k] by {
            assert(suffix[k] == g[n0 + k]);
        }
        assert(d =~= items@);
        assert forall|a: int| n0 <= a < g.len() implies #[trigger] g[a] == fresh_node(g[a].data) by {
            assert(g[n0 + (a - n0)] == fresh_node(items@[a - n0]));
        }
        assert forall|a: int, b: int| n0 <= a < g.len() && n0 <= b < g.len() && a != b implies #[trigger] g[a].data != #[trigger] g[b].data by {
            assert(g[n0 + (a - n0)] == fresh_node(items@[a - n0]));
            assert(g[n0 + (b - n0)] == fresh_node(items@[b - n0]));
        }
    }
}

/// The nodes of a build, then fresh nodes for the identifiers of `world` that none of them
/// carries, give what a build is owed.
proof fn lemma_build_finished(b: Seq<NodeView<u64>>, g: Seq<NodeView<u64>>, world0: Set<u64>, links: Seq<Link<u64>>)
    requires
        b == built(links),
        links.len() <= usize::MAX / 2,
        b.len() <= g.len(),
        g.take(b.len() as int) == b,
        forall|i: int| b.len() <= i < g.len() ==> #[trigger] g[i] == fresh_node(g[i].data),
        node_datas(g.skip(b.len() as int)) == world0.difference(node_datas(b)),
        forall|i: int, j: int| b.len() <= i < g.len() && b.len() <= j < g.len() && i != j
            ==> #[trigger] g[i].data != #[trigger] g[j].data,
    ensures
        build_result(g, world0, links),
{
    lemma_built(links);
    let n = b.len() as int;
    assert forall|i: int, j: int| 0 <= i < g.len() && 0 <= j < g.len() && i != j implies #[trigger] g[i].data != #[trigger] g[j].data by {
        if i < n && j < n {
            assert(g.take(n)[i] == g[i]);
            assert(g.take(n)[j] == g[j]);
        } else if i < n {
            assert(g.take(n)[i] == g[i]);
            lemma_has_data(b, g[i].data);
            lemma_has_data(g.skip(n), g[j].data);
            assert(g.skip(n)[j - n] == g[j]);
        } else if j < n {
            assert(g.take(n)[j] == g[j]);
            lemma_has_data(b, g[j].data);
            lemma_has_data(g.skip(n), g[i].data);
            assert(g.skip(n)[i - n] == g[i]);
        }
    }
}

impl Graph<u64> {
    /// Builds the graph of `world` and `links`, picking the way to find nodes by the number of
    /// links: a walk over the nodes for fewer than 64 links, an index above that. The links are
    /// taken in from the last to the first: a link from an identifier to itself is left out, and
    /// so is one that would close a cycle. Identifiers of `world` that no link joins make nodes
    /// of their own. A vector holds fewer links than half the largest `usize`, as each takes more
    /// than two bytes.
    pub fn new(world: HashSet<u64>, links: Vec<Link<u64>>) -> (graph: Self)
        requires
            links@.len() <= usize::MAX / 2,
        ensures
            build_result(graph@, world@, links@),
            graph_wf(graph@),
            forall|i: int| 0 <= i < graph@.len() ==> (#[trigger] graph@[i]).status == Status::Ready,
            node_datas(graph@) == world@.union(link_ends(links@)),
    {
        if links.len() < 64 {
            Self::new_3(world, links)
        } else {
            Self::new_2(world, links)
        }
    }

    /// Builds the graph of `world` and `links` as `new` does, finding nodes through an index.
    pub fn new_2(world: HashSet<u64>, links: Vec<Link<u64>>) -> (graph: Self)
        requires
            links@.len() <= usize::MAX / 2,
        ensures
            build_result(graph@, world@, links@),
            graph_wf(graph@),
            forall|i: int| 0 <= i < graph@.len() ==> (#[trigger] graph@[i]).status == Status::Ready,
            node_datas(graph@) == world@.union(link_ends(links@)),
    {
        let ghost world0 = world@;
        let ghost links0 = links@;
        let mut world = world;
        let mut links = links;
        let mut nodes: Vec<Node<u64>> = Vec::new();
        let mut index: HashMap<u64, usize> = HashMap::new();
        proof {
            assert(links0.skip(links0.len() as int) =~= Seq::<Link<u64>>::empty());
            assert(views(nodes@) =~= Seq::<NodeView<u64>>::empty());
            assert(node_datas(Seq::<NodeView<u64>>::empty()) =~= Set::<u64>::empty());
            assert(world@ =~= world0.difference(Set::<u64>::empty()));
            assert(links@ =~= links0.take(links0.len() as int));
        }
        while links.len() > 0
            invariant
                links0.len() <= usize::MAX / 2,
                links@.len() <= links0.len(),
                links@ == links0.take(links@.len() as int),
                views(nodes@) == built(links0.skip(links@.len() as int)),
                world@ == world0.difference(node_datas(views(nodes@))),
                indexes(index@, views(nodes@)),
            decreases links@.len(),
        {
            let ghost k = (links@.len() - 1) as int;
            let link = links.pop().unwrap();
            let ghost ns = views(nodes@);
            proof {
                assert(links0.skip(k).drop_first() =~= links0.skip(k + 1));
                assert(links0.take(k + 1)[k] == links0[k]);
                assert(links0.skip(k)[0] == link);
                assert(links@ =~= links0.take(k));
                lemma_built(links0.skip(k + 1));
                lemma_link_step(ns, link.from, link.to, (links0.len() - k - 1) as nat);
            }
            if link.to != link.from {
                world.remove(&link.to);
                let taken = take_link_indexed(&mut nodes, &mut index, link.from, link.to);
                if taken {
                    world.remove(&link.from);
                }
                proof {
                    lemma_has_data(ns, link.to);
                    lemma_has_data(ns, link.from);
                    assert(world@ =~= world0.difference(node_datas(views(nodes@))));
                }
            }
        }
        proof {
            assert(links0.skip(0) =~= links0);
        }
        let ghost b = views(nodes@);
        add_fresh_nodes(&mut nodes, &world);
        let total = nodes.len();
        assert(views(nodes@).len() == total);
        let graph = Graph { nodes };
        proof {
            lemma_build_finished(b, views(graph.nodes@), world0, links0);
            lemma_build_result(views(graph.nodes@), world0, links0);
        }
        graph
    }

    /// Builds the graph of `world` and `links` as `new` does, finding nodes by a walk over them.
    pub fn new_3(world: HashSet<u64>, links: Vec<Link<u64>>) -> (graph: Self)
        requires
            links@.len() <= usize::MAX / 2,
        ensures
            build_result(graph@, world@, links@),
            graph_wf(graph@),
            forall|i: int| 0 <= i < graph@.len() ==> (#[trigger] graph@[i]).status == Status::Ready,
            node_datas(graph@) == world@.union(link_ends(links@)),
    {
        let ghost world0 = world@;
        let ghost links0 = links@;
        let mut world = world;
        let mut links = links;
        let mut nodes: Vec<Node<u64>> = Vec::new();
        proof {
            assert(links0.skip(links0.len() as int) =~= Seq::<Link<u64>>::empty());
            assert(views(nodes@) =~= Seq::<NodeView<u64>>::empty());
            assert(node_datas(Seq::<NodeView<u64>>::empty()) =~= Set::<u64>::empty());
            assert(world@ =~= world0.difference(Set::<u64>::empty()));
            assert(links@ =~= links0.take(links0.len() as int));
        }
        while links.len() > 0
            invariant
                links0.len() <= usize::MAX / 2,
                links@.len() <= links0.len(),
                links@ == links0.take(links@.len() as int),
                views(nodes@) == built(links0.skip(links@.len() as int)),
                world@ == world0.difference(node_datas(views(nodes@))),
            decreases links@.len(),
        {
            let ghost k = (links@.len() - 1) as int;
            let link = links.pop().unwrap();
            let ghost ns = views(nodes@);
            proof {
                assert(links0.skip(k).drop_first() =~= links0.skip(k + 1));
                assert(links0.take(k + 1)[k] == links0[k]);
                assert(links0.skip(k)[0] == link);
                assert(links@ =~= links0.take(k));
                lemma_built(links0.skip(k + 1));
                lemma_link_step(ns, link.from, link.to, (links0.len() - k - 1) as nat);
            }
            if link.to != link.from {
                world.remove(&link.to);
                let taken = take_link_walking(&mut nodes, link.from, link.to);
                if taken {
                    world.remove(&link.from);
                }
                proof {
                    lemma_has_data(ns, link.to);
                    lemma_has_data(ns, link.from);
                    assert(world@ =~= world0.difference(node_datas(views(nodes@))));
                }
            }
        }
        proof {
            assert(links0.skip(0) =~= links0);
        }
        let ghost b = views(nodes@);
        add_fresh_nodes(&mut nodes, &world);
        let total = nodes.len();
        assert(views(nodes@).len() == total);
        let graph = Graph { nodes };
        proof {
            lemma_build_finished(b, views(graph.nodes@), world0, links0);
            lemma_build_result(views(graph.nodes@), world0, links0);
        }
        graph
    }
}

/// Law: where every link joins identifiers of the world, the graph has one node per identifier
/// of the world.
pub proof fn lemma_build_size(g: Seq<NodeView<u64>>, world: Set<u64>, links: Seq<Link<u64>>)
    requires
        build_result(g, world, links),
        links.len() <= usize::MAX / 2,
        g.len() <= usize::MAX,
        link_ends(links).subset_of(world),
    ensures
        g.len() == world.len(),
{
    lemma_build_result(g, world, links);
    let d = g.map_values(|n: NodeView<u64>| n.data);
    assert(d.no_duplicates()) by {
        assert forall|i: int, j: int| 0 <= i < d.len() && 0 <= j < d.len() && i != j implies d[i] != d[j] by {
            assert(g[i].data != g[j].data);
        }
    }
    d.unique_seq_to_set();
    assert(world.union(link_ends(links)) =~= world);
}

/// Law: a link between two different identifiers is taken in whenever the node carrying its
/// target reaches no node carrying its source: afterwards the node carrying the source has one more
/// link, to the node carrying the target, which waits for one more node (one, if it is new);
/// every other node of `ns` stays as it was.
pub proof fn lemma_link_taken(ns: Seq<NodeView<u64>>, from: u64, to: u64, count: nat)
    requires
        build_inv(ns, count),
        2 * count + 2 <= usize::MAX,
        from != to,
        forall|i: int| 0 <= i < ns.len() && ns[i].data == to ==> !dfs_reaches(ns, ns[i], from, Set::empty()),
    ensures
        exists|f: int, t: int|
            #![trigger link_step(ns, from, to)[f], link_step(ns, from, to)[t]]
            {
                let r = link_step(ns, from, to);
                &&& 0 <= f < r.len() && 0 <= t < r.len()
                &&& r[f].data == from && r[t].data == to
                &&& r[f].out.len() >= 1 && r[f].out.last() == t as usize
                &&& forall|i: int| 0 <= i < ns.len() && ns[i].data == from ==> i == f && r[f].out == ns[i].out.push(t as usize)
                &&& forall|i: int| 0 <= i < ns.len() && ns[i].data == to ==> i == t && r[t].ready == ns[i].ready + 1
                &&& (forall|i: int| 0 <= i < ns.len() ==> ns[i].data != to) ==> r[t].ready == 1
                &&& (forall|i: int| 0 <= i < ns.len() ==> ns[i].data != from) ==> r[f].out == seq![t as usize]
                &&& forall|i: int| 0 <= i < ns.len() && i != f && i != t ==> r[i] == ns[i]
            },
{
    lemma_index_of(ns, to);
    assert(!link_closes_cycle(ns, from, to)) by {
        if has_data(ns, to) {
            assert(ns[index_of(ns, to)].data == to);
        }
    }
    lemma_step_shape(ns, from, to, count);
    lemma_index_of(with_node(ns, to), from);
    let r = link_step(ns, from, to);
    let f = index_of(with_node(ns, to), from);
    let t = index_of(ns, to);
    assert(extends_by_link(ns, r, f, t));
    assert forall|i: int| 0 <= i < ns.len() && ns[i].data == from implies i == f && r[f].out == ns[i].out.push(t as usize) by {
        assert(with_node(ns, to)[i].data == from);
        lemma_with_node_distinct(ns, to);
        lemma_index_unique(with_node(ns, to), from, i);
    }
    assert forall|i: int| 0 <= i < ns.len() && ns[i].data == to implies i == t && r[t].ready == ns[i].ready + 1 by {
        lemma_index_unique(ns, to, i);
        assert(ns[i].ready <= count);
    }
    if forall|i: int| 0 <= i < ns.len() ==> ns[i].data != from {
        assert(!has_data(with_node(ns, to), from)) by {
            if has_data(with_node(ns, to), from) {
                let i = choose|i: int| 0 <= i < with_node(ns, to).len() && #[trigger] with_node(ns, to)[i].data == from;
                if i < ns.len() {
                    assert(ns[i].data == from);
                }
            }
        }
        assert(f >= ns.len());
    }
    assert forall|i: int| 0 <= i < ns.len() && i != f && i != t implies r[i] == ns[i] by {
        assert(r[i].out == ns[i].out);
        assert(r[i].data == ns[i].data);
        assert(r[i].ready == ns[i].ready);
        assert(r[i].status == ns[i].status);
    }
    assert(r[f].out.last() == t as usize);
}

/// Law: a link from an identifier to itself, or one whose target's node already reaches a node
/// carrying its source, changes nothing.
pub proof fn lemma_link_left_out(ns: Seq<NodeView<u64>>, from: u64, to: u64)
    requires
        datas_distinct(ns),
        from == to || exists|i: int| 0 <= i < ns.len() && ns[i].data == to && #[trigger] dfs_reaches(ns, ns[i], from, Set::empty()),
    ensures
        link_step(ns, from, to) == ns,
{
    if from != to {
        let i = choose|i: int| 0 <= i < ns.len() && ns[i].data == to && #[trigger] dfs_reaches(ns, ns[i], from, Set::empty());
        lemma_index_unique(ns, to, i);
    }
}

} // verus!
