use vstd::prelude::*;
use std::collections::HashSet;
use std::rc::Rc;
use crate::node::Node;
use crate::ordering::{ExecutionOrdering, set_items, set_within};

verus! {

broadcast use vstd::std_specs::hash::group_hash_axioms;

/// A node of a dependency graph under construction: its identifier, the identifiers that
/// must complete before it, and its priority (a larger value is a higher priority).
pub struct Entry {
    pub id: u64,
    pub after: HashSet<u64>,
    pub priority: i64,
}

/// No identifier names two entries.
pub open spec fn ids_distinct(g: Seq<Entry>) -> bool {
    forall|i: int, j: int|
        0 <= i < g.len() && 0 <= j < g.len() && i != j ==> #[trigger] g[i].id != #[trigger] g[j].id
}

/// Some entry carries the identifier `id`.
pub open spec fn has_id(g: Seq<Entry>, id: u64) -> bool {
    exists|i: int| 0 <= i < g.len() && #[trigger] g[i].id == id
}

/// The position of the entry that carries `id`.
pub open spec fn index_of_id(g: Seq<Entry>, id: u64) -> int {
    choose|i: int| 0 <= i < g.len() && #[trigger] g[i].id == id
}

/// The priority of the entry that carries `id`.
pub open spec fn prio(g: Seq<Entry>, id: u64) -> i64 {
    g[index_of_id(g, id)].priority
}

/// `u` must complete before `w`: the entry of `w` lists `u` among its afters.
pub open spec fn edge(g: Seq<Entry>, u: u64, w: u64) -> bool {
    exists|i: int| 0 <= i < g.len() && #[trigger] g[i].id == w && g[i].after@.contains(u)
}

/// Every identifier of `p` that a look back from its end for `x` passes names an entry: those
/// from the last position before the end that holds `x` to the end, or all where there is none.
#[verifier::opaque]
pub open spec fn keyed_to(g: Seq<Entry>, p: Seq<u64>, x: u64) -> bool {
    forall|i: int| 0 <= i < p.len() && (forall|t: int| i < t < p.len() - 1 ==> p[t] != x) ==> has_id(g, #[trigger] p[i])
}

/// Every identifier on the path names an entry.
pub open spec fn path_in(g: Seq<Entry>, p: Seq<u64>) -> bool {
    forall|i: int| 0 <= i < p.len() ==> has_id(g, #[trigger] p[i])
}

/// `k` is the last position before the end of `p` (its final element excluded) that holds `x`.
pub open spec fn last_match(p: Seq<u64>, x: u64, k: int) -> bool {
    &&& 0 <= k < p.len() - 1
    &&& p[k] == x
    &&& forall|i: int| k < i < p.len() - 1 ==> p[i] != x
}

/// Along the cycle that closes when `x` follows the path `p` (from the last position `k` before
/// the end that holds `x`, to the end), `m` is the identifier of highest priority (the latest
/// one among equals) and `c` is the identifier that follows it on the cycle inside `p`, or `None`
/// where `m` is the end of `p`.
pub open spec fn cut_choice(g: Seq<Entry>, p: Seq<u64>, x: u64, m: u64, c: Option<u64>) -> bool {
    exists|k: int, j: int|
        #![trigger last_match(p, x, k), p[j]]
        last_match(p, x, k) && k <= j < p.len() && m == p[j] && c == (if j == p.len() - 1 {
            None::<u64>
        } else {
            Some(p[j + 1])
        }) && (forall|i: int| k <= i < p.len() ==> prio(g, #[trigger] p[i]) <= prio(g, p[j]))
            && (forall|i: int| j < i < p.len() ==> prio(g, #[trigger] p[i]) < prio(g, p[j]))
}

/// Every position of `p` that repeats an earlier one directly follows it.
pub open spec fn repeats_adjacent(p: Seq<u64>) -> bool {
    forall|i: int, j: int| 0 <= i < j < p.len() && p[i] == p[j] ==> j == i + 1
}

/// The entries of `h` are those of `g`, in the same places, with the same identifiers and
/// priorities, each after-set a subset of the one in `g`.
pub open spec fn same_entries(g: Seq<Entry>, h: Seq<Entry>) -> bool {
    &&& h.len() == g.len()
    &&& forall|i: int|
        0 <= i < g.len() ==> (#[trigger] h[i]).id == g[i].id && h[i].priority == g[i].priority
            && h[i].after@.subset_of(g[i].after@)
}

/// `p` follows links of `g`.
pub open spec fn walk_in(g: Seq<Entry>, p: Seq<u64>) -> bool {
    forall|i: int| 0 <= i < p.len() - 1 ==> edge(g, #[trigger] p[i], p[i + 1])
}

/// `c` is a closed walk of `g`: each element links to the next, and the last to the first.
#[verifier::opaque]
pub open spec fn closed_walk(g: Seq<Entry>, c: Seq<u64>) -> bool {
    &&& c.len() >= 1
    &&& forall|i: int| 0 <= i < c.len() ==> edge(g, #[trigger] c[i], c[(i + 1) % (c.len() as int)])
}

/// No closed walk exists in `g`.
pub open spec fn acyclic(g: Seq<Entry>) -> bool {
    forall|c: Seq<u64>| !#[trigger] closed_walk(g, c)
}

/// The link from `u` to `w` lies on some closed walk of `g` on which no identifier has a higher
/// priority than `u`.
#[verifier::opaque]
pub open spec fn on_closed_walk(g: Seq<Entry>, u: u64, w: u64) -> bool {
    exists|c: Seq<u64>, i: int|
        #![trigger closed_walk(g, c), c[i]]
        closed_walk(g, c) && 0 <= i < c.len() && c[i] == u && c[(i + 1) % (c.len() as int)] == w
            && forall|t: int| 0 <= t < c.len() ==> prio(g, #[trigger] c[t]) <= prio(g, u)
}

/// Every link of `g` that `h` no longer has lies on a closed walk of `orig` on which its first
/// identifier has the highest priority.
pub open spec fn cuts_on_cycles(g: Seq<Entry>, h: Seq<Entry>, orig: Seq<Entry>) -> bool {
    forall|u: u64, w: u64| #[trigger] edge(g, u, w) && !edge(h, u, w) ==> on_closed_walk(orig, u, w)
}

/// The smaller of two integers.
pub open spec fn min_int(a: int, b: int) -> int {
    if a < b { a } else { b }
}

/// `s` continues the path `p` as a search would (no element after `p`, the last excepted,
/// repeats one lying above its parent) and closes a cycle at its end: its last element repeats
/// the one at position `k`, the last such position above its parent. Every link from the end of
/// `p` onward, and every link of the cycle, is present in `g`.
#[verifier::opaque]
pub open spec fn closes_cycle(g: Seq<Entry>, p: Seq<u64>, s: Seq<u64>, k: int) -> bool {
    let n = p.len() as int;
    let q = s.len() - 1;
    &&& n >= 1
    &&& s.len() > n
    &&& forall|i: int| 0 <= i < n ==> #[trigger] s[i] == p[i]
    &&& forall|a: int, b: int| n <= a < q && 0 <= b < a - 1 ==> #[trigger] s[b] != #[trigger] s[a]
    &&& last_match(s.drop_last(), s.last(), k)
    &&& forall|i: int| min_int(k, n - 1) <= i < q ==> edge(g, #[trigger] s[i], s[i + 1])
}

/// Below the path `p`, every cycle that a search from `p` can close has lost a link in `g`.
#[verifier::opaque]
pub open spec fn cycles_broken_below(g: Seq<Entry>, p: Seq<u64>) -> bool {
    forall|s: Seq<u64>, k: int| !#[trigger] closes_cycle(g, p, s, k)
}

/// Every cycle that a search from `p` closes through `l` as the next step has lost a link in `g`.
#[verifier::opaque]
pub open spec fn covered(g: Seq<Entry>, p: Seq<u64>, l: u64) -> bool {
    forall|s: Seq<u64>, k: int|
        s.len() > p.len() && s[p.len() as int] == l ==> !#[trigger] closes_cycle(g, p, s, k)
}

/// The path by which the search first reached `order[i]`: it ends there and passes only through
/// identifiers reached before.
pub open spec fn first_path_ok(q: Seq<u64>, order: Seq<u64>, i: int) -> bool {
    &&& q.len() >= 1
    &&& q.last() == order[i]
    &&& forall|j: int| 0 <= j < q.len() - 1 ==> order.subrange(0, i).contains(#[trigger] q[j])
}

/// The record of a search through `g`: `order` lists the identifiers in the order they were
/// first reached, `first` the path that first reached each; the search below each such path is
/// over, except for the identifiers in `pending`.
#[verifier::opaque]
pub open spec fn search_log(
    g: Seq<Entry>,
    order: Seq<u64>,
    first: Map<u64, Seq<u64>>,
    pending: Set<u64>,
) -> bool {
    &&& order.no_duplicates()
    &&& forall|v: u64| #[trigger] first.dom().contains(v) <==> order.contains(v)
    &&& forall|i: int| 0 <= i < order.len() ==> first_path_ok(first[#[trigger] order[i]], order, i)
    &&& forall|v: u64|
        #[trigger] first.dom().contains(v) && !pending.contains(v) ==> cycles_broken_below(g, first[v])
}

/// An entry as plain values: its identifier, its priority and the identifiers it runs after.
pub type EntryModel = (u64, i64, Set<u64>);

/// The entries of `g` as plain values, in the same order.
pub open spec fn entries_model(g: Seq<Entry>) -> Seq<EntryModel> {
    g.map_values(|e: Entry| (e.id, e.priority, e.after@))
}

/// The priority of the entry that carries `id` in `m`.
pub open spec fn model_prio(m: Seq<EntryModel>, id: u64) -> i64 {
    m[choose|i: int| 0 <= i < m.len() && #[trigger] m[i].0 == id].1
}

/// The identifiers, among the first `n` entries of `m` and in their order, that a search steps to
/// after the path `p`: with an empty path those of the entries with no afters, else those of the
/// entries that list the end of `p` among their afters.
pub open spec fn steps_upto(m: Seq<EntryModel>, p: Seq<u64>, n: int) -> Seq<u64>
    decreases n,
{
    if n <= 0 {
        Seq::empty()
    } else {
        let rest = steps_upto(m, p, n - 1);
        let e = m[n - 1];
        if (p.len() == 0 && e.2.is_empty()) || (p.len() > 0 && e.2.contains(p.last())) {
            rest.push(e.0)
        } else {
            rest
        }
    }
}

/// `cut_choice` over the priorities of `m`.
pub open spec fn model_cut_choice(m: Seq<EntryModel>, p: Seq<u64>, x: u64, mx: u64, c: Option<u64>) -> bool {
    exists|k: int, j: int|
        #![trigger last_match(p, x, k), p[j]]
        last_match(p, x, k) && k <= j < p.len() && mx == p[j] && c == (if j == p.len() - 1 {
            None::<u64>
        } else {
            Some(p[j + 1])
        }) && (forall|i: int| k <= i < p.len() ==> model_prio(m, #[trigger] p[i]) <= model_prio(m, p[j]))
            && (forall|i: int| j < i < p.len() ==> model_prio(m, #[trigger] p[i]) < model_prio(m, p[j]))
}

/// `m` with `value` taken out of the afters of the entries that carry `id`.
pub open spec fn without_after(m: Seq<EntryModel>, id: u64, value: u64) -> Seq<EntryModel> {
    m.map_values(|e: EntryModel| if e.0 == id { (e.0, e.1, e.2.remove(value)) } else { e })
}

/// `m` once the cycle closed when `x` follows `p` has lost the link that leaves its identifier of
/// highest priority (the one nearest the end of `p` among equals).
pub open spec fn cut_model(m: Seq<EntryModel>, p: Seq<u64>, x: u64) -> Seq<EntryModel> {
    let (mx, c) = choose|mx: u64, c: Option<u64>| model_cut_choice(m, p, x, mx, c);
    without_after(m, match c { Some(t) => t, None => x }, mx)
}

/// What a search below the path `p` leaves: the entries, and the identifiers seen (those of `s`
/// and every identifier the search steps to). It takes the steps after `p` in turn: a step back to
/// an identifier above the end of `p` cuts the link of the cycle so closed that leaves its
/// identifier of highest priority; any other step searches below the longer path. Paths stay
/// within twice `n` identifiers.
pub open spec fn search_model(m: Seq<EntryModel>, s: Set<u64>, p: Seq<u64>, n: nat) -> (Seq<EntryModel>, Set<u64>)
    decreases 2 * n - p.len(), 1int, 0int,
{
    search_steps(m, s, p, steps_upto(m, p, m.len() as int), 0, n)
}

/// The search below `p` from its `i`-th step on.
pub open spec fn search_steps(
    m: Seq<EntryModel>,
    s: Set<u64>,
    p: Seq<u64>,
    leaves: Seq<u64>,
    i: int,
    n: nat,
) -> (Seq<EntryModel>, Set<u64>)
    decreases 2 * n - p.len(), 0int, leaves.len() - i,
{
    if i < 0 || i >= leaves.len() {
        (m, s)
    } else {
        let x = leaves[i];
        let s1 = s.insert(x);
        let next = if p.len() > 0 && p.drop_last().contains(x) {
            (cut_model(m, p, x), s1)
        } else if p.len() + 1 <= 2 * n {
            search_model(m, s1, p.push(x), n)
        } else {
            (m, s1)
        };
        search_steps(next.0, next.1, p, leaves, i + 1, n)
    }
}

/// `b` is the position of the entry not in `s` of highest priority (the last one among equals).
pub open spec fn top_unreached(m: Seq<EntryModel>, s: Set<u64>, b: int) -> bool {
    &&& 0 <= b < m.len()
    &&& !s.contains(m[b].0)
    &&& forall|j: int| 0 <= j < m.len() && !s.contains(#[trigger] m[j].0) ==> m[j].1 <= m[b].1
    &&& forall|j: int| b < j < m.len() && !s.contains(#[trigger] m[j].0) ==> m[j].1 < m[b].1
}

/// While some entry is not in `s` (for at most `fuel` rounds), searches again from the unreached
/// entry of highest priority, the last one among equals.
pub open spec fn restart_model(m: Seq<EntryModel>, s: Set<u64>, fuel: nat, n: nat) -> Seq<EntryModel>
    decreases fuel,
{
    if fuel == 0 || (forall|j: int| 0 <= j < m.len() ==> s.contains(#[trigger] m[j].0)) {
        m
    } else {
        let b = choose|b: int| top_unreached(m, s, b);
        let r = m[b].0;
        let res = search_model(m, s.insert(r), seq![r], n);
        restart_model(res.0, res.1, (fuel - 1) as nat, n)
    }
}

/// The entries once every cycle is broken: first a search from the entries without afters, then,
/// while an entry is left unreached, a search from the unreached entry of highest priority (the
/// last one among equals).
pub open spec fn broken_model(m: Seq<EntryModel>) -> Seq<EntryModel> {
    let first = search_model(m, Set::empty(), Seq::empty(), m.len());
    restart_model(first.0, first.1, m.len(), m.len())
}

/// The path that a search is below: that of the node, or none.
pub open spec fn path_or_empty(c: Option<Rc<Node>>) -> Seq<u64> {
    if c is Some {
        c.unwrap().path()
    } else {
        Seq::empty()
    }
}

proof fn lemma_model_prio(g: Seq<Entry>, id: u64)
    requires
        ids_distinct(g),
        has_id(g, id),
    ensures
        model_prio(entries_model(g), id) == prio(g, id),
{
    let m = entries_model(g);
    let i = index_of_id(g, id);
    let k = choose|k: int| 0 <= k < m.len() && #[trigger] m[k].0 == id;
    assert(m[i].0 == id);
    assert(g[k].id == id);
}

proof fn lemma_cut_choice_model(g: Seq<Entry>, p: Seq<u64>, x: u64, mx: u64, c: Option<u64>)
    requires
        ids_distinct(g),
        path_in(g, p),
        cut_choice(g, p, x, mx, c),
    ensures
        model_cut_choice(entries_model(g), p, x, mx, c),
{
    let m = entries_model(g);
    let (k, j) = choose|k: int, j: int|
        #![trigger last_match(p, x, k), p[j]]
        last_match(p, x, k) && k <= j < p.len() && mx == p[j] && c == (if j == p.len() - 1 {
            None::<u64>
        } else {
            Some(p[j + 1])
        }) && (forall|i: int| k <= i < p.len() ==> prio(g, #[trigger] p[i]) <= prio(g, p[j]))
            && (forall|i: int| j < i < p.len() ==> prio(g, #[trigger] p[i]) < prio(g, p[j]));
    lemma_model_prio(g, p[j]);
    assert forall|i: int| k <= i < p.len() implies model_prio(m, #[trigger] p[i]) <= model_prio(m, p[j]) by {
        lemma_model_prio(g, p[i]);
    }
    assert forall|i: int| j < i < p.len() implies model_prio(m, #[trigger] p[i]) < model_prio(m, p[j]) by {
        lemma_model_prio(g, p[i]);
    }
    assert(last_match(p, x, k));
}

/// The link that a closed cycle loses is determined.
proof fn lemma_model_cut_unique(m: Seq<EntryModel>, p: Seq<u64>, x: u64, m1: u64, c1: Option<u64>, m2: u64, c2: Option<u64>)
    requires
        model_cut_choice(m, p, x, m1, c1),
        model_cut_choice(m, p, x, m2, c2),
    ensures
        m1 == m2,
        c1 == c2,
{
    let (k1, j1) = choose|k: int, j: int|
        #![trigger last_match(p, x, k), p[j]]
        last_match(p, x, k) && k <= j < p.len() && m1 == p[j] && c1 == (if j == p.len() - 1 {
            None::<u64>
        } else {
            Some(p[j + 1])
        }) && (forall|i: int| k <= i < p.len() ==> model_prio(m, #[trigger] p[i]) <= model_prio(m, p[j]))
            && (forall|i: int| j < i < p.len() ==> model_prio(m, #[trigger] p[i]) < model_prio(m, p[j]));
    let (k2, j2) = choose|k: int, j: int|
        #![trigger last_match(p, x, k), p[j]]
        last_match(p, x, k) && k <= j < p.len() && m2 == p[j] && c2 == (if j == p.len() - 1 {
            None::<u64>
        } else {
            Some(p[j + 1])
        }) && (forall|i: int| k <= i < p.len() ==> model_prio(m, #[trigger] p[i]) <= model_prio(m, p[j]))
            && (forall|i: int| j < i < p.len() ==> model_prio(m, #[trigger] p[i]) < model_prio(m, p[j]));
    if k1 < k2 {
        assert(p[k2] != x);
    } else if k2 < k1 {
        assert(p[k1] != x);
    }
    assert(k1 == k2);
    if j1 < j2 {
        assert(model_prio(m, p[j2]) < model_prio(m, p[j1]));
        assert(model_prio(m, p[j1]) <= model_prio(m, p[j2]));
    } else if j2 < j1 {
        assert(model_prio(m, p[j1]) < model_prio(m, p[j2]));
        assert(model_prio(m, p[j2]) <= model_prio(m, p[j1]));
    }
}

/// The position of the unreached entry of highest priority is determined.
proof fn lemma_top_unreached_unique(m: Seq<EntryModel>, s: Set<u64>, a: int, b: int)
    requires
        top_unreached(m, s, a),
        top_unreached(m, s, b),
    ensures
        a == b,
{
    if a < b {
        assert(m[b].1 < m[a].1);
        assert(m[a].1 <= m[b].1);
    } else if b < a {
        assert(m[a].1 < m[b].1);
        assert(m[b].1 <= m[a].1);
    }
}

/// A step that closes a cycle: the search goes on from the next step with the cycle cut.
proof fn lemma_steps_cut(
    m: Seq<EntryModel>,
    s: Set<u64>,
    p: Seq<u64>,
    leaves: Seq<u64>,
    i: int,
    n: nat,
)
    requires
        0 <= i < leaves.len(),
        p.len() > 0,
        p.drop_last().contains(leaves[i]),
    ensures
        search_steps(m, s, p, leaves, i, n) == search_steps(
            cut_model(m, p, leaves[i]),
            s.insert(leaves[i]),
            p,
            leaves,
            i + 1,
            n,
        ),
{
}

/// A step that closes no cycle: the search goes on from the next step with what the search
/// below the longer path left.
proof fn lemma_steps_descend(
    m: Seq<EntryModel>,
    s: Set<u64>,
    p: Seq<u64>,
    leaves: Seq<u64>,
    i: int,
    n: nat,
)
    requires
        0 <= i < leaves.len(),
        !(p.len() > 0 && p.drop_last().contains(leaves[i])),
        p.len() + 1 <= 2 * n,
    ensures
        search_steps(m, s, p, leaves, i, n) == {
            let res = search_model(m, s.insert(leaves[i]), p.push(leaves[i]), n);
            search_steps(res.0, res.1, p, leaves, i + 1, n)
        },
{
}

/// Each round of the restarts searches from the entry not yet reached whose priority is the
/// highest, the last one in the entries among those of equal priority: where the entry at `b` is
/// that entry, the round marks its identifier seen and searches below the path made of it alone.
pub proof fn lemma_restart_step(m: Seq<EntryModel>, s: Set<u64>, fuel: nat, n: nat, b: int)
    requires
        fuel > 0,
        0 <= b < m.len(),
        !s.contains(m[b].0),
        forall|j: int| 0 <= j < m.len() && !s.contains(#[trigger] m[j].0) ==> m[j].1 <= m[b].1,
        forall|j: int| b < j < m.len() && !s.contains(#[trigger] m[j].0) ==> m[j].1 < m[b].1,
    ensures
        restart_model(m, s, fuel, n) == {
            let res = search_model(m, s.insert(m[b].0), seq![m[b].0], n);
            restart_model(res.0, res.1, (fuel - 1) as nat, n)
        },
{
    assert(!s.contains(m[b].0));
    let c = choose|c: int| top_unreached(m, s, c);
    lemma_top_unreached_unique(m, s, b, c);
}

/// Once every entry is reached, no search starts again and the entries stay as they are.
pub proof fn lemma_restart_done(m: Seq<EntryModel>, s: Set<u64>, fuel: nat, n: nat)
    requires
        forall|j: int| 0 <= j < m.len() ==> s.contains(#[trigger] m[j].0),
    ensures
        restart_model(m, s, fuel, n) == m,
{
}

/// A step to an identifier that repeats nothing above the end of the path keeps repeats adjacent.
proof fn lemma_adjacent_push(p: Seq<u64>, l: u64)
    requires
        p.len() >= 1,
        repeats_adjacent(p),
        !p.drop_last().contains(l),
    ensures
        repeats_adjacent(p.push(l)),
{
    let q = p.push(l);
    assert forall|i: int, j: int| 0 <= i < j < q.len() && q[i] == q[j] implies j == i + 1 by {
        if j == p.len() && i < p.len() - 1 {
            assert(p.drop_last()[i] == l);
        }
        if j < p.len() {
            assert(q[i] == p[i] && q[j] == p[j]);
        }
    }
}

proof fn lemma_same_entries_edges(g: Seq<Entry>, h: Seq<Entry>)
    requires
        same_entries(g, h),
    ensures
        forall|u: u64, w: u64| #[trigger] edge(h, u, w) ==> edge(g, u, w),
        ids_distinct(g) ==> ids_distinct(h),
        forall|id: u64| has_id(g, id) <==> has_id(h, id),
{
    assert forall|u: u64, w: u64| #[trigger] edge(h, u, w) implies edge(g, u, w) by {
        let i = choose|i: int| 0 <= i < h.len() && #[trigger] h[i].id == w && h[i].after@.contains(u);
        assert(g[i].id == w);
    }
    assert forall|id: u64| has_id(g, id) <==> has_id(h, id) by {
        if has_id(g, id) {
            let i = choose|i: int| 0 <= i < g.len() && #[trigger] g[i].id == id;
            assert(h[i].id == id);
        }
        if has_id(h, id) {
            let i = choose|i: int| 0 <= i < h.len() && #[trigger] h[i].id == id;
            assert(g[i].id == id);
        }
    }
}

proof fn lemma_same_entries_trans(g: Seq<Entry>, h: Seq<Entry>, f: Seq<Entry>)
    requires
        same_entries(g, h),
        same_entries(h, f),
    ensures
        same_entries(g, f),
{
    assert forall|i: int| 0 <= i < g.len() implies (#[trigger] f[i]).id == g[i].id && f[i].priority
        == g[i].priority && f[i].after@.subset_of(g[i].after@) by {
        assert(h[i].id == g[i].id);
        assert(f[i].id == h[i].id);
    }
}

/// A cycle broken in a graph stays broken when links are taken away.
proof fn lemma_closes_cycle_mono(g: Seq<Entry>, h: Seq<Entry>, p: Seq<u64>, s: Seq<u64>, k: int)
    requires
        forall|u: u64, w: u64| #[trigger] edge(h, u, w) ==> edge(g, u, w),
        closes_cycle(h, p, s, k),
    ensures
        closes_cycle(g, p, s, k),
{
    reveal(closes_cycle);
    let n = p.len() as int;
    assert forall|i: int| min_int(k, n - 1) <= i < s.len() - 1 implies edge(g, #[trigger] s[i], s[i + 1]) by {
        assert(edge(h, s[i], s[i + 1]));
    }
}

proof fn lemma_broken_mono(g: Seq<Entry>, h: Seq<Entry>, p: Seq<u64>)
    requires
        forall|u: u64, w: u64| #[trigger] edge(h, u, w) ==> edge(g, u, w),
        cycles_broken_below(g, p),
    ensures
        cycles_broken_below(h, p),
{
    reveal(cycles_broken_below);
    assert forall|s: Seq<u64>, k: int| !#[trigger] closes_cycle(h, p, s, k) by {
        if closes_cycle(h, p, s, k) {
            lemma_closes_cycle_mono(g, h, p, s, k);
        }
    }
}

proof fn lemma_covered_mono(g: Seq<Entry>, h: Seq<Entry>, p: Seq<u64>, l: u64)
    requires
        forall|u: u64, w: u64| #[trigger] edge(h, u, w) ==> edge(g, u, w),
        covered(g, p, l),
    ensures
        covered(h, p, l),
{
    reveal(covered);
    assert forall|s: Seq<u64>, k: int| s.len() > p.len() && s[p.len() as int] == l implies !#[trigger] closes_cycle(h, p, s, k) by {
        if closes_cycle(h, p, s, k) {
            lemma_closes_cycle_mono(g, h, p, s, k);
        }
    }
}

proof fn lemma_log_mono(g: Seq<Entry>, h: Seq<Entry>, order: Seq<u64>, first: Map<u64, Seq<u64>>, pending: Set<u64>)
    requires
        forall|u: u64, w: u64| #[trigger] edge(h, u, w) ==> edge(g, u, w),
        search_log(g, order, first, pending),
    ensures
        search_log(h, order, first, pending),
{
    reveal(search_log);
    assert forall|v: u64| #[trigger] first.dom().contains(v) && !pending.contains(v) implies cycles_broken_below(h, first[v]) by {
        lemma_broken_mono(g, h, first[v]);
    }
}

/// Where the next step `l` after `p` repeats nothing above the end of `p`, the search below the
/// longer path covers every cycle closed through `l`.
#[verifier::spinoff_prover]
#[verifier::rlimit(20)]
proof fn lemma_covered_by_descent(g: Seq<Entry>, p: Seq<u64>, l: u64)
    requires
        p.len() >= 1,
        !p.drop_last().contains(l),
        cycles_broken_below(g, p.push(l)),
    ensures
        covered(g, p, l),
{
    reveal(covered);
    reveal(closes_cycle);
    reveal(cycles_broken_below);
    let n = p.len() as int;
    assert forall|s: Seq<u64>, k: int| s.len() > p.len() && s[p.len() as int] == l implies !#[trigger] closes_cycle(g, p, s, k) by {
        if closes_cycle(g, p, s, k) {
            if s.len() == n + 1 {
                assert(s.drop_last()[k] == l);
                assert(s.drop_last()[k] == p[k]);
                assert(p.drop_last()[k] == l);
            } else {
                let p2 = p.push(l);
                assert forall|i: int| 0 <= i < n + 1 implies #[trigger] s[i] == p2[i] by {
                    if i < n {
                        assert(s[i] == p[i]);
                    }
                }
                assert forall|i: int| min_int(k, n) <= i < s.len() - 1 implies edge(g, #[trigger] s[i], s[i + 1]) by {
                    assert(min_int(k, n - 1) <= i);
                }
                assert(closes_cycle(g, p2, s, k));
            }
        }
    }
}

/// Where `l` repeats an element above the end of `p` and the search cut a link of the cycle so
/// closed, that cycle is covered.
proof fn lemma_covered_by_cut(g: Seq<Entry>, p: Seq<u64>, l: u64, k0: int, j: int)
    requires
        p.len() >= 1,
        last_match(p, l, k0),
        k0 <= j < p.len(),
        !edge(g, p[j], if j == p.len() - 1 { l } else { p[j + 1] }),
    ensures
        covered(g, p, l),
{
    reveal(covered);
    reveal(closes_cycle);
    let n = p.len() as int;
    assert forall|s: Seq<u64>, k: int| s.len() > p.len() && s[p.len() as int] == l implies !#[trigger] closes_cycle(g, p, s, k) by {
        if closes_cycle(g, p, s, k) {
            if s.len() == n + 1 {
                assert(s.drop_last() =~= p) by {
                    assert forall|i: int| 0 <= i < n implies s.drop_last()[i] == p[i] by {
                        assert(s[i] == p[i]);
                    }
                }
                // both are the last position above the end of `p` that holds `l`
                if k < k0 {
                    assert(s.drop_last()[k0] == l);
                } else if k0 < k {
                    assert(p[k] == l);
                }
                assert(k == k0);
                assert(edge(g, s[j], s[j + 1]));
                if j < n - 1 {
                    assert(s[j + 1] == p[j + 1]);
                }
                assert(s[j] == p[j]);
            } else {
                assert(s[k0] == p[k0]);
                assert(s[k0] != s[n]);
            }
        }
    }
}

/// A search path in which only neighbours may repeat is at most twice as long as the number of
/// identifiers it holds.
proof fn lemma_adjacent_len(p: Seq<u64>)
    requires
        repeats_adjacent(p),
    ensures
        p.len() <= 2 * p.to_set().len(),
    decreases p.len(),
{
    broadcast use vstd::seq_lib::seq_to_set_is_finite;
    if p.len() > 0 {
        let x = p.last();
        let r = p.drop_last();
        if !r.contains(x) {
            lemma_adjacent_len(r);
            assert(p =~= r + seq![x]);
            Seq::lemma_to_set_insert_commutes(r, x);
            assert(!r.to_set().contains(x));
        } else {
            let i = choose|i: int| 0 <= i < r.len() && r[i] == x;
            assert(p[i] == p[p.len() - 1]);
            assert(i == p.len() - 2);
            let r2 = r.drop_last();
            assert(!r2.contains(x)) by {
                if r2.contains(x) {
                    let j = choose|j: int| 0 <= j < r2.len() && r2[j] == x;
                    assert(p[j] == p[p.len() - 1]);
                }
            }
            assert(repeats_adjacent(r2)) by {
                assert forall|a: int, b: int| 0 <= a < b < r2.len() && r2[a] == r2[b] implies b == a + 1 by {
                    assert(p[a] == p[b]);
                }
            }
            lemma_adjacent_len(r2);
            assert(p.to_set() =~= r2.to_set().insert(x)) by {
                assert(p =~= r2 + seq![x] + seq![x]);
                assert(r =~= r2 + seq![x]);
                Seq::lemma_to_set_insert_commutes(r2, x);
                Seq::lemma_to_set_insert_commutes(r, x);
            }
            assert(!r2.to_set().contains(x));
        }
    }
}

/// The identifiers of the entries.
pub open spec fn id_seq(g: Seq<Entry>) -> Seq<u64> {
    g.map_values(|e: Entry| e.id)
}

/// A search path through `g` in which only neighbours repeat is at most twice as long as `g`.
proof fn lemma_path_bound(g: Seq<Entry>, p: Seq<u64>)
    requires
        repeats_adjacent(p),
        path_in(g, p),
    ensures
        p.len() <= 2 * g.len(),
{
    broadcast use vstd::seq_lib::seq_to_set_is_finite;
    lemma_adjacent_len(p);
    let ids = id_seq(g);
    assert(p.to_set().subset_of(ids.to_set())) by {
        assert forall|x: u64| p.to_set().contains(x) implies ids.to_set().contains(x) by {
            let i = choose|i: int| 0 <= i < p.len() && p[i] == x;
            assert(has_id(g, p[i]));
            let j = choose|j: int| 0 <= j < g.len() && #[trigger] g[j].id == p[i];
            assert(ids[j] == x);
        }
    }
    vstd::set_lib::lemma_len_subset(p.to_set(), ids.to_set());
    ids.lemma_cardinality_of_set();
}

/// Where every step the search may take from the end of `p` is covered, every cycle closed
/// below `p` is broken.
proof fn lemma_broken_from_covered(g: Seq<Entry>, h: Seq<Entry>, p: Seq<u64>, leaves: Seq<u64>)
    requires
        p.len() >= 1,
        forall|u: u64, w: u64| #[trigger] edge(h, u, w) ==> edge(g, u, w),
        forall|w: u64| #[trigger] edge(g, p.last(), w) ==> leaves.contains(w),
        forall|t: int| 0 <= t < leaves.len() ==> covered(h, p, #[trigger] leaves[t]),
    ensures
        cycles_broken_below(h, p),
{
    reveal(covered);
    reveal(closes_cycle);
    reveal(cycles_broken_below);
    let n = p.len() as int;
    assert forall|s: Seq<u64>, k: int| !#[trigger] closes_cycle(h, p, s, k) by {
        if closes_cycle(h, p, s, k) {
            assert(edge(h, s[n - 1], s[n]));
            assert(s[n - 1] == p[n - 1]);
            assert(edge(g, p.last(), s[n]));
            let t = choose|t: int| 0 <= t < leaves.len() && leaves[t] == s[n];
            assert(covered(h, p, leaves[t]));
        }
    }
}

/// The link that a search cuts when `l` closes a cycle after `p` lies on a closed walk.
#[verifier::spinoff_prover]
#[verifier::rlimit(20)]
proof fn lemma_cut_on_walk(orig: Seq<Entry>, p: Seq<u64>, l: u64, k: int, j: int)
    requires
        walk_in(orig, p),
        p.len() >= 1,
        edge(orig, p.last(), l),
        last_match(p, l, k),
        k <= j < p.len(),
        forall|i: int| k <= i < p.len() ==> prio(orig, #[trigger] p[i]) <= prio(orig, p[j]),
    ensures
        on_closed_walk(orig, p[j], if j == p.len() - 1 { l } else { p[j + 1] }),
{
    let n = p.len() as int;
    let c = p.subrange(k, n);
    let len = n - k;
    let i = j - k;
    let w = if j == p.len() - 1 { l } else { p[j + 1] };
    assert(closed_walk(orig, c)) by {
        reveal(closed_walk);
        assert forall|t: int| 0 <= t < c.len() implies edge(orig, #[trigger] c[t], c[(t + 1) % len]) by {
            if t < len - 1 {
                vstd::arithmetic::div_mod::lemma_small_mod((t + 1) as nat, len as nat);
                assert(edge(orig, p[k + t], p[k + t + 1]));
            } else {
                vstd::arithmetic::div_mod::lemma_mod_self_0(len);
                assert(c[0] == l);
            }
        }
    }
    assert(c[(i + 1) % len] == w) by {
        if j < n - 1 {
            vstd::arithmetic::div_mod::lemma_small_mod((i + 1) as nat, len as nat);
        } else {
            vstd::arithmetic::div_mod::lemma_mod_self_0(len);
        }
    }
    assert(c[i] == p[j]);
    assert forall|t: int| 0 <= t < c.len() implies prio(orig, #[trigger] c[t]) <= prio(orig, p[j]) by {
        assert(c[t] == p[k + t]);
    }
    reveal(on_closed_walk);
    assert(closed_walk(orig, c) && 0 <= i < c.len() && c[i] == p[j] && c[(i + 1) % (c.len() as int)] == w
        && forall|t: int| 0 <= t < c.len() ==> prio(orig, #[trigger] c[t]) <= prio(orig, p[j]));
}

/// Entries that keep their identifiers and priorities give each identifier the same priority.
proof fn lemma_prio_same(g: Seq<Entry>, h: Seq<Entry>, x: u64)
    requires
        same_entries(g, h) || same_entries(h, g),
        ids_distinct(g),
        has_id(g, x),
    ensures
        prio(g, x) == prio(h, x),
        has_id(h, x),
{
    let i = index_of_id(g, x);
    assert(g[i].id == x);
    assert(h[i].id == x);
    let j = index_of_id(h, x);
    assert(h[j].id == x);
    assert(g[j].id == x);
}

/// The priorities that pick a cut in the current entries are those of the first entries.
proof fn lemma_cut_priorities(orig: Seq<Entry>, g0: Seq<Entry>, g1: Seq<Entry>, p: Seq<u64>, k: int, j: int)
    requires
        same_entries(orig, g0),
        same_entries(g0, g1),
        ids_distinct(g0),
        path_in(g0, p),
        0 <= k <= j < p.len(),
        forall|i: int| k <= i < p.len() ==> prio(g1, #[trigger] p[i]) <= prio(g1, p[j]),
    ensures
        forall|i: int| k <= i < p.len() ==> prio(orig, #[trigger] p[i]) <= prio(orig, p[j]),
{
    assert forall|i: int| k <= i < p.len() implies prio(orig, #[trigger] p[i]) <= prio(orig, p[j]) by {
        assert(has_id(g0, p[i]));
        assert(has_id(g0, p[j]));
        lemma_prio_same(g0, orig, p[i]);
        lemma_prio_same(g0, orig, p[j]);
        lemma_prio_same(g0, g1, p[i]);
        lemma_prio_same(g0, g1, p[j]);
        assert(prio(g1, p[i]) <= prio(g1, p[j]));
    }
}

proof fn lemma_cuts_trans(g: Seq<Entry>, h: Seq<Entry>, f: Seq<Entry>, orig: Seq<Entry>)
    requires
        cuts_on_cycles(g, h, orig),
        cuts_on_cycles(h, f, orig),
    ensures
        cuts_on_cycles(g, f, orig),
{
    assert forall|u: u64, w: u64| #[trigger] edge(g, u, w) && !edge(f, u, w) implies on_closed_walk(orig, u, w) by {
        if edge(h, u, w) {
        } else {
        }
    }
}

proof fn lemma_log_dom(g: Seq<Entry>, order: Seq<u64>, first: Map<u64, Seq<u64>>, pending: Set<u64>)
    requires
        search_log(g, order, first, pending),
    ensures
        forall|v: u64| #[trigger] first.dom().contains(v) <==> order.contains(v),
        order.no_duplicates(),
{
    reveal(search_log);
}

/// Once the search below the first path of `l` is over, `l` is no longer pending.
proof fn lemma_log_settle(g: Seq<Entry>, order: Seq<u64>, first: Map<u64, Seq<u64>>, pending: Set<u64>, l: u64)
    requires
        search_log(g, order, first, pending.insert(l)),
        first.dom().contains(l),
        cycles_broken_below(g, first[l]),
    ensures
        search_log(g, order, first, pending),
{
    reveal(search_log);
}

proof fn lemma_prefix_contains(a: Seq<u64>, b: Seq<u64>, x: u64)
    requires
        a.is_prefix_of(b),
        a.contains(x),
    ensures
        b.contains(x),
{
    let t = choose|t: int| 0 <= t < a.len() && a[t] == x;
    assert(b[t] == a[t]);
}

/// One more step `l` below the search path `p` (or from nowhere, where there is no path) is a
/// search path again.
proof fn lemma_step_path(g0: Seq<Entry>, g1: Seq<Entry>, orig: Seq<Entry>, p: Seq<u64>, l: u64, p2: Seq<u64>, has_path: bool)
    requires
        forall|id: u64| has_id(g0, id) <==> has_id(g1, id),
        g0.len() == g1.len(),
        has_id(g0, l),
        forall|u: u64, w: u64| #[trigger] edge(g0, u, w) ==> edge(orig, u, w),
        has_path ==> {
            &&& p.len() >= 1
            &&& p2 == p.push(l)
            &&& path_in(g0, p)
            &&& repeats_adjacent(p)
            &&& walk_in(orig, p)
            &&& edge(g0, p.last(), l)
            &&& !p.drop_last().contains(l)
        },
        !has_path ==> p2 == seq![l] && p.len() == 0,
    ensures
        path_in(g1, p2),
        repeats_adjacent(p2),
        walk_in(orig, p2),
        p2.len() <= 2 * g1.len(),
        p2.len() == p.len() + 1,
{
    assert(path_in(g1, p2)) by {
        assert forall|i: int| 0 <= i < p2.len() implies has_id(g1, #[trigger] p2[i]) by {
            if i < p2.len() - 1 {
                assert(p2[i] == p[i]);
                assert(has_id(g0, p[i]));
            }
        }
    }
    assert(repeats_adjacent(p2)) by {
        assert forall|a: int, b: int| 0 <= a < b < p2.len() && p2[a] == p2[b] implies b == a + 1 by {
            if b == p2.len() - 1 && a < b - 1 {
                assert(p.drop_last()[a] == l);
            } else if b < p2.len() - 1 {
                assert(p[a] == p[b]);
            }
        }
    }
    assert(walk_in(orig, p2)) by {
        assert forall|i: int| 0 <= i < p2.len() - 1 implies edge(orig, #[trigger] p2[i], p2[i + 1]) by {
            if i < p2.len() - 2 {
                assert(p2[i] == p[i] && p2[i + 1] == p[i + 1]);
            } else {
                assert(edge(g0, p.last(), l));
            }
        }
    }
    lemma_path_bound(g1, p2);
}

proof fn lemma_closed_walk_nonempty(g: Seq<Entry>, c: Seq<u64>)
    requires
        closed_walk(g, c),
    ensures
        c.len() >= 1,
{
    reveal(closed_walk);
}

/// The first `n` steps of `leaves` below `p` are covered.
#[verifier::opaque]
pub open spec fn covers_prefix(g: Seq<Entry>, p: Seq<u64>, leaves: Seq<u64>, n: int) -> bool {
    forall|t: int| 0 <= t < n ==> covered(g, p, #[trigger] leaves[t])
}

proof fn lemma_covers_extend(g1: Seq<Entry>, g2: Seq<Entry>, p: Seq<u64>, leaves: Seq<u64>, n: int)
    requires
        0 <= n < leaves.len(),
        covers_prefix(g1, p, leaves, n),
        forall|u: u64, w: u64| #[trigger] edge(g2, u, w) ==> edge(g1, u, w),
        covered(g2, p, leaves[n]),
    ensures
        covers_prefix(g2, p, leaves, n + 1),
{
    reveal(covers_prefix);
    assert forall|t: int| 0 <= t < n + 1 implies covered(g2, p, #[trigger] leaves[t]) by {
        if t < n {
            lemma_covered_mono(g1, g2, p, leaves[t]);
        }
    }
}

/// The identifiers of the entries of `g`, gathered in a set, form a finite set.
proof fn lemma_ids_set_finite(g: Seq<Entry>, ids: Set<u64>)
    requires
        forall|id: u64| #[trigger] ids.contains(id) <==> has_id(g, id),
    ensures
        ids.finite(),
        ids.len() <= g.len(),
{
    broadcast use vstd::seq_lib::seq_to_set_is_finite;
    let s = id_seq(g);
    assert(ids =~= s.to_set()) by {
        assert forall|x: u64| ids.contains(x) <==> s.to_set().contains(x) by {
            if ids.contains(x) {
                let i = choose|i: int| 0 <= i < g.len() && #[trigger] g[i].id == x;
                assert(s[i] == x);
            }
            if s.to_set().contains(x) {
                let i = choose|i: int| 0 <= i < s.len() && s[i] == x;
                assert(g[i].id == x);
            }
        }
    }
    s.lemma_cardinality_of_set();
}

/// What the search has reached lies among the identifiers.
proof fn lemma_seen_within(order: Seq<u64>, seen: Set<u64>, ids: Set<u64>, orig: Seq<Entry>, g: Seq<Entry>)
    requires
        seen == order.to_set(),
        forall|x: u64| #[trigger] order.contains(x) ==> has_id(g, x),
        forall|id: u64| has_id(orig, id) <==> has_id(g, id),
        forall|id: u64| #[trigger] ids.contains(id) <==> has_id(orig, id),
    ensures
        seen.subset_of(ids),
        seen.finite(),
{
    broadcast use vstd::seq_lib::seq_to_set_is_finite;
}

/// Where fewer identifiers are reached than there are, some entry is unreached.
proof fn lemma_unreached_exists(order: Seq<u64>, seen: Set<u64>, ids: Set<u64>, orig: Seq<Entry>, g: Seq<Entry>)
    requires
        seen == order.to_set(),
        forall|x: u64| #[trigger] order.contains(x) ==> has_id(g, x),
        forall|id: u64| has_id(orig, id) <==> has_id(g, id),
        forall|id: u64| #[trigger] ids.contains(id) <==> has_id(orig, id),
        ids.finite(),
        seen.len() != ids.len(),
    ensures
        exists|j: int| 0 <= j < g.len() && !seen.contains(#[trigger] g[j].id),
{
    lemma_seen_within(order, seen, ids, orig, g);
    if seen =~= ids {
    } else {
        let x = choose|x: u64| ids.contains(x) && !seen.contains(x);
        assert(has_id(g, x));
        let j = choose|j: int| 0 <= j < g.len() && #[trigger] g[j].id == x;
        assert(!seen.contains(g[j].id));
    }
}

/// A subset of a finite set with as many elements is the whole set.
proof fn lemma_subset_same_len(a: Set<u64>, b: Set<u64>)
    requires
        a.subset_of(b),
        b.finite(),
        a.len() == b.len(),
    ensures
        a == b,
{
    if !(a =~= b) {
        let x = choose|x: u64| b.contains(x) && !a.contains(x);
        vstd::set_lib::lemma_len_subset(a, b.remove(x));
    }
}

/// Starting a search from the unreached identifier `id` records it, pending.
proof fn lemma_start_root(
    orig: Seq<Entry>,
    g: Seq<Entry>,
    order: Seq<u64>,
    first: Map<u64, Seq<u64>>,
    seen_before: Set<u64>,
    id: u64,
)
    requires
        search_log(g, order, first, Set::empty()),
        seen_before == order.to_set(),
        !seen_before.contains(id),
        has_id(g, id),
        forall|x: u64| #[trigger] order.contains(x) ==> has_id(g, x),
    ensures
        search_log(g, order.push(id), first.insert(id, seq![id]), Set::empty().insert(id)),
        seen_before.insert(id) == order.push(id).to_set(),
        walk_in(orig, seq![id]),
        repeats_adjacent(seq![id]),
        path_in(g, seq![id]),
        forall|i: int| 0 <= i < 1 ==> order.push(id).contains(#[trigger] seq![id][i]),
        forall|x: u64| #[trigger] order.push(id).contains(x) ==> has_id(g, x),
{
    assert(!order.contains(id));
    lemma_log_extend(g, order, first, Set::empty(), id, seq![id]);
    assert(order.push(id) =~= order + seq![id]);
    Seq::lemma_to_set_insert_commutes(order, id);
    assert(path_in(g, seq![id])) by {
        assert forall|t: int| 0 <= t < 1 implies has_id(g, #[trigger] seq![id][t]) by {}
    }
    assert(order.push(id)[order.len() as int] == id);
    assert forall|x: u64| #[trigger] order.push(id).contains(x) implies has_id(g, x) by {
        if x != id {
            let t = choose|t: int| 0 <= t < order.push(id).len() && order.push(id)[t] == x;
            assert(order[t] == x);
            assert(order.contains(x));
        }
    }
}

/// Recording a newly reached identifier `l`, first reached by a path through identifiers
/// already reached, keeps the record in shape with `l` pending.
proof fn lemma_log_extend(
    g: Seq<Entry>,
    order: Seq<u64>,
    first: Map<u64, Seq<u64>>,
    pending: Set<u64>,
    l: u64,
    q: Seq<u64>,
)
    requires
        search_log(g, order, first, pending),
        !order.contains(l),
        q.len() >= 1,
        q.last() == l,
        forall|j: int| 0 <= j < q.len() - 1 ==> order.contains(#[trigger] q[j]),
    ensures
        search_log(g, order.push(l), first.insert(l, q), pending.insert(l)),
{
    reveal(search_log);
    let order2 = order.push(l);
    let first2 = first.insert(l, q);
    assert(order2.no_duplicates()) by {
        assert forall|a: int, b: int| 0 <= a < order2.len() && 0 <= b < order2.len() && a != b implies order2[a] != order2[b] by {
            if a == order.len() {
                assert(order.contains(order2[b]) || b == a);
            } else if b == order.len() {
                assert(order.contains(order2[a]));
            }
        }
    }
    assert forall|v: u64| #[trigger] first2.dom().contains(v) <==> order2.contains(v) by {
        if order2.contains(v) && v != l {
            let i = choose|i: int| 0 <= i < order2.len() && order2[i] == v;
            assert(order[i] == v);
        }
        if order.contains(v) {
            let i = choose|i: int| 0 <= i < order.len() && order[i] == v;
            assert(order2[i] == v);
        }
        if v == l {
            assert(order2[order.len() as int] == l);
        }
    }
    assert forall|i: int| 0 <= i < order2.len() implies first_path_ok(first2[#[trigger] order2[i]], order2, i) by {
        if i == order.len() {
            assert(order2.subrange(0, i) =~= order);
        } else {
            assert(first_path_ok(first[order[i]], order, i));
            assert(order2[i] == order[i]);
            assert(order[i] != l) by {
                assert(order.contains(order[i]));
            }
            assert(order2.subrange(0, i) =~= order.subrange(0, i));
        }
    }
}

/// The position of `x` in `order`.
pub open spec fn rank(order: Seq<u64>, x: u64) -> int {
    choose|t: int| 0 <= t < order.len() && order[t] == x
}

proof fn lemma_rank(order: Seq<u64>, x: u64, t: int)
    requires
        order.no_duplicates(),
        0 <= t < order.len(),
        order[t] == x,
    ensures
        rank(order, x) == t,
{
    let r = rank(order, x);
    assert(0 <= r < order.len() && order[r] == x);
}

/// A position of `c`, among the first `upto`, whose element comes earliest in `order`.
proof fn lemma_min_rank(order: Seq<u64>, c: Seq<u64>, upto: int) -> (i0: int)
    requires
        1 <= upto <= c.len(),
        forall|i: int| 0 <= i < c.len() ==> order.contains(#[trigger] c[i]),
    ensures
        0 <= i0 < upto,
        forall|i: int| 0 <= i < upto ==> rank(order, c[i0]) <= rank(order, #[trigger] c[i]),
    decreases upto,
{
    if upto == 1 {
        0
    } else {
        let i1 = lemma_min_rank(order, c, upto - 1);
        if rank(order, c[upto - 1]) < rank(order, c[i1]) {
            upto - 1
        } else {
            i1
        }
    }
}

/// The element `t` steps along the closed walk `c` from position `i0`.
pub open spec fn walk_from(c: Seq<u64>, i0: int, t: int) -> u64 {
    c[(i0 + t) % (c.len() as int)]
}

proof fn lemma_walk_step(g: Seq<Entry>, c: Seq<u64>, i0: int, t: int)
    requires
        closed_walk(g, c),
        0 <= i0 < c.len(),
        t >= 0,
    ensures
        edge(g, walk_from(c, i0, t), walk_from(c, i0, t + 1)),
{
    reveal(closed_walk);
    let p = c.len() as int;
    let x = (i0 + t) % p;
    vstd::arithmetic::div_mod::lemma_mod_bound(i0 + t, p);
    assert(edge(g, c[x], c[(x + 1) % p]));
    vstd::arithmetic::div_mod::lemma_add_mod_noop_right(1, i0 + t, p);
    assert(1 + x == x + 1);
    assert(1 + (i0 + t) == i0 + (t + 1));
}

proof fn lemma_walk_ends(c: Seq<u64>, i0: int)
    requires
        c.len() >= 1,
        0 <= i0 < c.len(),
    ensures
        walk_from(c, i0, 0) == c[i0],
        c.len() >= 2 ==> walk_from(c, i0, c.len() as int) == c[i0],
        c.len() == 1 ==> walk_from(c, i0, 2) == c[i0],
        forall|t: int| t >= 0 ==> 0 <= #[trigger] ((i0 + t) % (c.len() as int)) < c.len(),
{
    let p = c.len() as int;
    vstd::arithmetic::div_mod::lemma_small_mod(i0 as nat, p as nat);
    assert(i0 + 0 == i0);
    vstd::arithmetic::div_mod::lemma_add_mod_noop_right(i0, p, p);
    vstd::arithmetic::div_mod::lemma_mod_self_0(p);
    assert forall|t: int| t >= 0 implies 0 <= #[trigger] ((i0 + t) % p) < p by {
        vstd::arithmetic::div_mod::lemma_mod_bound(i0 + t, p);
    }
    if p == 1 {
        vstd::arithmetic::div_mod::lemma_mod_bound(i0 + 2, p);
    }
}

/// The greater of two integers.
pub open spec fn max_int(a: int, b: int) -> int {
    if a < b { b } else { a }
}

/// The search that continues `q` along the closed walk `c` from position `i0` is legitimate
/// so far, in `s`.
#[verifier::opaque]
pub open spec fn follows_walk(q: Seq<u64>, c: Seq<u64>, i0: int, s: Seq<u64>) -> bool {
    let n = q.len() as int;
    &&& n >= 1
    &&& s.len() >= n + 1
    &&& s.len() - n <= max_int(c.len() as int, 2)
    &&& forall|i: int| 0 <= i < n ==> #[trigger] s[i] == q[i]
    &&& forall|t: int| 0 <= t <= s.len() - n ==> #[trigger] s[n - 1 + t] == walk_from(c, i0, t)
    &&& forall|a: int, b: int| n <= a < s.len() - 1 && 0 <= b < a - 1 ==> #[trigger] s[b] != #[trigger] s[a]
}

/// Following a closed walk below a path, a search closes a cycle within one round of the walk.
proof fn lemma_first_closing(q: Seq<u64>, c: Seq<u64>, i0: int, s: Seq<u64>) -> (r: Seq<u64>)
    requires
        c.len() >= 1,
        0 <= i0 < c.len(),
        q.last() == c[i0],
        follows_walk(q, c, i0, s),
    ensures
        follows_walk(q, c, i0, r),
        exists|b: int| 0 <= b < r.len() - 2 && r[b] == r.last(),
    decreases max_int(c.len() as int, 2) - (s.len() - q.len()),
{
    reveal(follows_walk);
    let n = q.len() as int;
    let m = s.len() - n;
    let p = c.len() as int;
    if exists|b: int| 0 <= b < s.len() - 2 && s[b] == s.last() {
        s
    } else {
        lemma_walk_ends(c, i0);
        assert(s[n - 1 + 0] == walk_from(c, i0, 0));
        assert(s[n - 1] == q[n - 1]);
        if m == max_int(p, 2) {
            assert(s[n - 1 + m] == walk_from(c, i0, m));
            assert(s.last() == s[n - 1 + m]);
            assert(s[n - 1] == s.last());
            assert(false);
        }
        let s2 = s.push(walk_from(c, i0, m + 1));
        assert forall|t: int| 0 <= t <= s2.len() - n implies #[trigger] s2[n - 1 + t] == walk_from(c, i0, t) by {
            if t <= m {
                assert(s2[n - 1 + t] == s[n - 1 + t]);
            }
        }
        assert forall|a: int, b: int| n <= a < s2.len() - 1 && 0 <= b < a - 1 implies #[trigger] s2[b] != #[trigger] s2[a] by {
            assert(s2[b] == s[b] && s2[a] == s[a]);
            if a < s.len() - 1 {
                assert(s[b] != s[a]);
            } else {
                assert(s[a] == s.last());
            }
        }
        assert forall|i: int| 0 <= i < n implies #[trigger] s2[i] == q[i] by {
            assert(s2[i] == s[i]);
        }
        lemma_first_closing(q, c, i0, s2)
    }
}

/// The last position below `hi` that holds `x`, where one exists.
proof fn lemma_last_position(s: Seq<u64>, x: u64, hi: int) -> (k: int)
    requires
        0 <= hi <= s.len(),
        exists|b: int| 0 <= b < hi && s[b] == x,
    ensures
        0 <= k < hi,
        s[k] == x,
        forall|i: int| k < i < hi ==> s[i] != x,
    decreases hi,
{
    if s[hi - 1] == x {
        hi - 1
    } else {
        let b = choose|b: int| 0 <= b < hi && s[b] == x;
        assert(b < hi - 1);
        lemma_last_position(s, x, hi - 1)
    }
}

/// The cycle that a search following the closed walk `c` below the first path `q` of its
/// earliest-reached element closes, in `r`, is one that the search broke below `q`: so `c` is
/// not a closed walk of `g`.
proof fn lemma_closing_contradiction(
    g: Seq<Entry>,
    order: Seq<u64>,
    q: Seq<u64>,
    c: Seq<u64>,
    i0: int,
    ri: int,
    r: Seq<u64>,
)
    requires
        0 <= i0 < c.len(),
        order.no_duplicates(),
        0 <= ri < order.len(),
        order[ri] == c[i0],
        forall|i: int| 0 <= i < c.len() ==> order.contains(#[trigger] c[i]),
        forall|i: int| 0 <= i < c.len() ==> rank(order, c[i0]) <= rank(order, #[trigger] c[i]),
        first_path_ok(q, order, ri),
        cycles_broken_below(g, q),
        follows_walk(q, c, i0, r),
        exists|b: int| 0 <= b < r.len() - 2 && r[b] == r.last(),
    ensures
        !closed_walk(g, c),
{
    if !closed_walk(g, c) {
        return;
    }
    reveal(follows_walk);
    let p = c.len() as int;
    let n = q.len() as int;
    lemma_walk_ends(c, i0);
    lemma_rank(order, c[i0], ri);
    let k = lemma_last_position(r, r.last(), r.len() - 2);
    let m = r.len() - n;
    assert(r.last() == r[n - 1 + m]);
    assert(r.last() == walk_from(c, i0, m));
    let x = (i0 + m) % p;
    assert(0 <= x < p);
    // the cycle's elements come no earlier than `c[i0]`; the identifiers above it on `q` do
    assert(k >= n - 1) by {
        if k < n - 1 {
            assert(r[k] == q[k]);
            assert(order.subrange(0, ri).contains(q[k]));
            let t = choose|t: int| 0 <= t < ri && order.subrange(0, ri)[t] == q[k];
            assert(order[t] == q[k]);
            lemma_rank(order, q[k], t);
            assert(rank(order, c[i0]) <= rank(order, c[x]));
            assert(c[x] == r.last());
        }
    }
    assert forall|i: int| min_int(k, n - 1) <= i < r.len() - 1 implies edge(g, #[trigger] r[i], r[i + 1]) by {
        let t = i - (n - 1);
        assert(r[n - 1 + t] == walk_from(c, i0, t));
        assert(r[n - 1 + (t + 1)] == walk_from(c, i0, t + 1));
        lemma_walk_step(g, c, i0, t);
    }
    assert(last_match(r.drop_last(), r.last(), k));
    reveal(closes_cycle);
    assert(closes_cycle(g, q, r, k));
    reveal(cycles_broken_below);
}

proof fn lemma_log_entry(g: Seq<Entry>, order: Seq<u64>, first: Map<u64, Seq<u64>>, i: int)
    requires
        search_log(g, order, first, Set::empty()),
        0 <= i < order.len(),
    ensures
        order.no_duplicates(),
        first.dom().contains(order[i]),
        first_path_ok(first[order[i]], order, i),
        cycles_broken_below(g, first[order[i]]),
{
    reveal(search_log);
    assert(order.contains(order[i]));
}

/// Every element of a closed walk names an entry.
proof fn lemma_closed_walk_ids(g: Seq<Entry>, c: Seq<u64>)
    requires
        closed_walk(g, c),
    ensures
        forall|i: int| 0 <= i < c.len() ==> has_id(g, #[trigger] c[i]),
{
    reveal(closed_walk);
    let p = c.len() as int;
    assert forall|i: int| 0 <= i < c.len() implies has_id(g, #[trigger] c[i]) by {
        let prev = (i + p - 1) % p;
        vstd::arithmetic::div_mod::lemma_mod_bound(i + p - 1, p);
        vstd::arithmetic::div_mod::lemma_add_mod_noop_right(1, i + p - 1, p);
        vstd::arithmetic::div_mod::lemma_add_mod_noop_right(i, p, p);
        vstd::arithmetic::div_mod::lemma_mod_self_0(p);
        vstd::arithmetic::div_mod::lemma_small_mod(i as nat, p as nat);
        assert(1 + (i + p - 1) == i + p);
        assert(edge(g, c[prev], c[(prev + 1) % p]));
        assert((prev + 1) % p == i);
        let j = choose|j: int| 0 <= j < g.len() && #[trigger] g[j].id == c[i] && g[j].after@.contains(c[prev]);
    }
}

/// No closed walk runs through identifiers that a finished search has all reached.
proof fn lemma_no_closed_walk(g: Seq<Entry>, order: Seq<u64>, first: Map<u64, Seq<u64>>, c: Seq<u64>)
    requires
        search_log(g, order, first, Set::empty()),
        forall|i: int| 0 <= i < c.len() ==> order.contains(#[trigger] c[i]),
    ensures
        !closed_walk(g, c),
{
    if !closed_walk(g, c) {
        return;
    }
    lemma_closed_walk_nonempty(g, c);
    let p = c.len() as int;
    let i0 = lemma_min_rank(order, c, p);
    let v = c[i0];
    let ri = rank(order, v);
    assert(order.contains(c[i0]));
    assert(0 <= ri < order.len() && order[ri] == v);
    lemma_log_entry(g, order, first, ri);
    assert forall|i: int| 0 <= i < p implies rank(order, c[i0]) <= rank(order, #[trigger] c[i]) by {}
    let q = first[order[ri]];
    let n = q.len() as int;
    lemma_walk_ends(c, i0);
    let s0 = q.push(walk_from(c, i0, 1));
    assert(follows_walk(q, c, i0, s0)) by {
        reveal(follows_walk);
        assert forall|t: int| 0 <= t <= s0.len() - n implies #[trigger] s0[n - 1 + t] == walk_from(c, i0, t) by {
            if t == 0 {
                assert(s0[n - 1] == q.last());
            }
        }
    }
    let r = lemma_first_closing(q, c, i0, s0);
    lemma_closing_contradiction(g, order, q, c, i0, ri, r);
}

/// Once a search has reached every identifier of `g` and finished below each, `g` has no
/// closed walk.
proof fn lemma_search_acyclic(g: Seq<Entry>, order: Seq<u64>, first: Map<u64, Seq<u64>>)
    requires
        search_log(g, order, first, Set::empty()),
        forall|id: u64| has_id(g, id) ==> order.contains(id),
    ensures
        acyclic(g),
{
    assert forall|c: Seq<u64>| !#[trigger] closed_walk(g, c) by {
        if closed_walk(g, c) {
            lemma_closed_walk_ids(g, c);
            lemma_no_closed_walk(g, order, first, c);
        }
    }
}


/// One node's ordering in plain values: its identifier, the identifiers it runs before, those it
/// runs after, and its priority.
pub open spec fn orderings_view(v: Seq<(u64, HashSet<u64>, HashSet<u64>, i64)>) -> Seq<(u64, Set<u64>, Set<u64>, i64)> {
    v.map_values(|o: (u64, HashSet<u64>, HashSet<u64>, i64)| (o.0, o.1@, o.2@, o.3))
}

/// What the orderings of `nodes` say once narrowed to the identifiers of `nodes`: each node's
/// identifier, then what it runs before, what it runs after and its priority.
pub open spec fn subsumed_orderings<Y: ExecutionOrdering>(nodes: Seq<(u64, &Y)>) -> Seq<(u64, Set<u64>, Set<u64>, i64)> {
    let ids = nodes.map_values(|n: (u64, &Y)| n.0).to_set();
    nodes.map_values(|n: (u64, &Y)| {
        let q = n.1.subsumed_parts(ids);
        (n.0, q.0, q.1, q.2)
    })
}

/// The identifiers of the orderings, in order.
pub open spec fn ordering_ids(os: Seq<(u64, Set<u64>, Set<u64>, i64)>) -> Seq<u64> {
    os.map_values(|o: (u64, Set<u64>, Set<u64>, i64)| o.0)
}

/// The elements of `ids`, each once, in the order of their first appearance.
pub open spec fn first_ids(ids: Seq<u64>) -> Seq<u64>
    decreases ids.len(),
{
    if ids.len() == 0 {
        Seq::empty()
    } else {
        let r = first_ids(ids.drop_last());
        if r.contains(ids.last()) {
            r
        } else {
            r.push(ids.last())
        }
    }
}

/// What the last ordering of `x` says it runs after (nothing, where `x` has none).
pub open spec fn last_after(os: Seq<(u64, Set<u64>, Set<u64>, i64)>, x: u64) -> Set<u64>
    decreases os.len(),
{
    if os.len() == 0 {
        Set::empty()
    } else if os.last().0 == x {
        os.last().2
    } else {
        last_after(os.drop_last(), x)
    }
}

/// The priority that the last ordering of `x` gives (zero, where `x` has none).
pub open spec fn last_priority(os: Seq<(u64, Set<u64>, Set<u64>, i64)>, x: u64) -> i64
    decreases os.len(),
{
    if os.len() == 0 {
        0
    } else if os.last().0 == x {
        os.last().3
    } else {
        last_priority(os.drop_last(), x)
    }
}

/// The identifiers whose orderings say they run before `x`.
pub open spec fn put_before(os: Seq<(u64, Set<u64>, Set<u64>, i64)>, x: u64) -> Set<u64> {
    Set::new(|n: u64| exists|i: int| 0 <= i < os.len() && #[trigger] os[i].0 == n && os[i].1.contains(x))
}

/// What `x` runs after once the orderings are merged: what its last ordering says, and every
/// identifier that says it runs before `x`; identifiers without an ordering are left out.
pub open spec fn merged_after(os: Seq<(u64, Set<u64>, Set<u64>, i64)>, x: u64) -> Set<u64> {
    last_after(os, x).union(put_before(os, x)).intersect(ordering_ids(os).to_set())
}

/// The dependencies that the orderings ask for, before any cycle is broken: one node per
/// identifier, in order of first appearance.
pub open spec fn merged_deps(os: Seq<(u64, Set<u64>, Set<u64>, i64)>) -> Seq<(u64, Set<u64>)> {
    first_ids(ordering_ids(os)).map_values(|x: u64| (x, merged_after(os, x)))
}

/// The entries that the orderings merge into, as plain values: each identifier in order of first
/// appearance, with the priority its last ordering gives and its merged afters.
pub open spec fn merged_model(os: Seq<(u64, Set<u64>, Set<u64>, i64)>) -> Seq<EntryModel> {
    first_ids(ordering_ids(os)).map_values(|x: u64| (x, last_priority(os, x), merged_after(os, x)))
}

proof fn lemma_first_ids(ids: Seq<u64>)
    ensures
        first_ids(ids).no_duplicates(),
        first_ids(ids).to_set() == ids.to_set(),
    decreases ids.len(),
{
    if ids.len() > 0 {
        let r = first_ids(ids.drop_last());
        lemma_first_ids(ids.drop_last());
        assert(ids =~= ids.drop_last() + seq![ids.last()]);
        Seq::lemma_to_set_insert_commutes(ids.drop_last(), ids.last());
        if !r.contains(ids.last()) {
            assert(r.push(ids.last()) =~= r + seq![ids.last()]);
            Seq::lemma_to_set_insert_commutes(r, ids.last());
            assert(r.push(ids.last()).no_duplicates()) by {
                let p = r.push(ids.last());
                assert forall|a: int, b: int| 0 <= a < p.len() && 0 <= b < p.len() && a != b implies p[a] != p[b] by {
                    if a == r.len() {
                        assert(r.contains(p[b]) || b == a);
                    } else if b == r.len() {
                        assert(r.contains(p[a]));
                    }
                }
            }
        } else {
            assert(ids.drop_last().to_set().insert(ids.last()) =~= ids.drop_last().to_set());
        }
    } else {
        assert(ids.to_set() =~= Set::<u64>::empty());
        assert(first_ids(ids) =~= Seq::<u64>::empty());
    }
}

/// A dependency graph in plain values: each node's identifier with the set of identifiers that
/// must complete before it.
pub open spec fn depends(d: Seq<(u64, Set<u64>)>, u: u64, w: u64) -> bool {
    exists|i: int| 0 <= i < d.len() && #[trigger] d[i].0 == w && d[i].1.contains(u)
}

/// `c` is a closed walk of the dependencies `d`.
pub open spec fn dep_closed_walk(d: Seq<(u64, Set<u64>)>, c: Seq<u64>) -> bool {
    &&& c.len() >= 1
    &&& forall|i: int| 0 <= i < c.len() ==> depends(d, #[trigger] c[i], c[(i + 1) % (c.len() as int)])
}

/// The dependencies `d` have no closed walk: some order runs every node after all it depends on.
pub open spec fn dep_acyclic(d: Seq<(u64, Set<u64>)>) -> bool {
    forall|c: Seq<u64>| !#[trigger] dep_closed_walk(d, c)
}

/// The dependency of `w` on `u` lies on a closed walk of `d` on which no identifier has a higher
/// priority, as the orderings `os` give it, than `u`.
#[verifier::opaque]
pub open spec fn dep_on_closed_walk(d: Seq<(u64, Set<u64>)>, os: Seq<(u64, Set<u64>, Set<u64>, i64)>, u: u64, w: u64) -> bool {
    exists|c: Seq<u64>, i: int|
        #![trigger dep_closed_walk(d, c), c[i]]
        dep_closed_walk(d, c) && 0 <= i < c.len() && c[i] == u && c[(i + 1) % (c.len() as int)] == w
            && forall|t: int| 0 <= t < c.len() ==> last_priority(os, #[trigger] c[t]) <= last_priority(os, u)
}

/// The entries as plain dependencies.
pub open spec fn deps_of(g: Seq<Entry>) -> Seq<(u64, Set<u64>)> {
    g.map_values(|e: Entry| (e.id, e.after@))
}

proof fn lemma_deps_bridge(g: Seq<Entry>, d: Seq<(u64, Set<u64>)>)
    requires
        d == deps_of(g),
    ensures
        forall|u: u64, w: u64| #[trigger] edge(g, u, w) <==> depends(d, u, w),
        forall|c: Seq<u64>| #[trigger] closed_walk(g, c) <==> dep_closed_walk(d, c),
        acyclic(g) <==> dep_acyclic(d),
{
    assert forall|u: u64, w: u64| #[trigger] edge(g, u, w) <==> depends(d, u, w) by {
        if edge(g, u, w) {
            let i = choose|i: int| 0 <= i < g.len() && #[trigger] g[i].id == w && g[i].after@.contains(u);
            assert(d[i].0 == w);
        }
        if depends(d, u, w) {
            let i = choose|i: int| 0 <= i < d.len() && #[trigger] d[i].0 == w && d[i].1.contains(u);
            assert(g[i].id == w);
        }
    }
    reveal(closed_walk);
    assert forall|c: Seq<u64>| #[trigger] closed_walk(g, c) <==> dep_closed_walk(d, c) by {
        if closed_walk(g, c) {
            assert forall|i: int| 0 <= i < c.len() implies depends(d, #[trigger] c[i], c[(i + 1) % (c.len() as int)]) by {
                assert(edge(g, c[i], c[(i + 1) % (c.len() as int)]));
            }
        }
        if dep_closed_walk(d, c) {
            assert forall|i: int| 0 <= i < c.len() implies edge(g, #[trigger] c[i], c[(i + 1) % (c.len() as int)]) by {
                assert(depends(d, c[i], c[(i + 1) % (c.len() as int)]));
            }
        }
    }
    assert(acyclic(g) <==> dep_acyclic(d)) by {
        if acyclic(g) {
            assert forall|c: Seq<u64>| !#[trigger] dep_closed_walk(d, c) by {
                assert(!closed_walk(g, c));
            }
        }
        if dep_acyclic(d) {
            assert forall|c: Seq<u64>| !#[trigger] closed_walk(g, c) by {
                assert(!dep_closed_walk(d, c));
            }
        }
    }
}

/// A link cut at the top of a closed walk of entries whose priorities the orderings give is a
/// dependency cut at the top of a closed walk of their dependencies.
proof fn lemma_top_bridge(g: Seq<Entry>, os: Seq<(u64, Set<u64>, Set<u64>, i64)>, u: u64, w: u64)
    requires
        ids_distinct(g),
        forall|j: int| 0 <= j < g.len() ==> (#[trigger] g[j]).priority == last_priority(os, g[j].id),
        on_closed_walk(g, u, w),
    ensures
        dep_on_closed_walk(deps_of(g), os, u, w),
{
    let (c, i) = lemma_walk_witness(g, u, w);
    lemma_closed_walk_ids(g, c);
    assert forall|t: int| 0 <= t < c.len() implies last_priority(os, #[trigger] c[t]) <= last_priority(os, u) by {
        assert(prio(g, c[t]) <= prio(g, u));
        assert(has_id(g, c[t]));
        let k = index_of_id(g, c[t]);
        assert(g[k].id == c[t]);
        let k2 = index_of_id(g, u);
        assert(has_id(g, c[i]));
        assert(g[k2].id == u);
    }
    lemma_deps_bridge(g, deps_of(g));
    assert(dep_closed_walk(deps_of(g), c));
    reveal(dep_on_closed_walk);
    assert(dep_closed_walk(deps_of(g), c) && 0 <= i < c.len() && c[i] == u && c[(i + 1) % (c.len() as int)] == w
        && forall|t: int| 0 <= t < c.len() ==> last_priority(os, #[trigger] c[t]) <= last_priority(os, u));
}

/// A closed walk that shows a link lies at the top of one.
proof fn lemma_walk_witness(g: Seq<Entry>, u: u64, w: u64) -> (r: (Seq<u64>, int))
    requires
        on_closed_walk(g, u, w),
    ensures
        closed_walk(g, r.0),
        0 <= r.1 < r.0.len(),
        r.0[r.1] == u,
        r.0[(r.1 + 1) % (r.0.len() as int)] == w,
        forall|t: int| 0 <= t < r.0.len() ==> prio(g, #[trigger] r.0[t]) <= prio(g, u),
{
    reveal(on_closed_walk);
    choose|c: Seq<u64>, i: int|
        #![trigger closed_walk(g, c), c[i]]
        closed_walk(g, c) && 0 <= i < c.len() && c[i] == u && c[(i + 1) % (c.len() as int)] == w
            && forall|t: int| 0 <= t < c.len() ==> prio(g, #[trigger] c[t]) <= prio(g, u)
}

/// The identifiers of the entries.
pub open spec fn ids_of(g: Seq<Entry>) -> Set<u64> {
    g.map_values(|e: Entry| e.id).to_set()
}

/// How far a search from the path `p` may still go: twice the identifiers of `g` not on `p`,
/// and one more where the end of `p` does not repeat an identifier above it.
pub open spec fn path_measure(g: Seq<Entry>, p: Seq<u64>) -> nat {
    2 * ids_of(g).difference(p.to_set()).len() + (if p.drop_last().contains(p.last()) { 0nat } else { 1nat })
}

proof fn lemma_ids_of(g: Seq<Entry>, h: Seq<Entry>)
    requires
        forall|id: u64| has_id(g, id) <==> has_id(h, id),
    ensures
        ids_of(g) == ids_of(h),
        ids_of(g).finite(),
        forall|id: u64| #[trigger] ids_of(g).contains(id) <==> has_id(g, id),
{
    broadcast use vstd::seq_lib::seq_to_set_is_finite;
    assert forall|id: u64| #[trigger] ids_of(g).contains(id) <==> has_id(g, id) by {
        let m = g.map_values(|e: Entry| e.id);
        if has_id(g, id) {
            let i = choose|i: int| 0 <= i < g.len() && #[trigger] g[i].id == id;
            assert(m[i] == id);
        }
        if ids_of(g).contains(id) {
            let i = choose|i: int| 0 <= i < m.len() && #[trigger] m[i] == id;
            assert(g[i].id == id);
        }
    }
    assert forall|id: u64| #[trigger] ids_of(h).contains(id) <==> has_id(h, id) by {
        let m = h.map_values(|e: Entry| e.id);
        if has_id(h, id) {
            let i = choose|i: int| 0 <= i < h.len() && #[trigger] h[i].id == id;
            assert(m[i] == id);
        }
        if ids_of(h).contains(id) {
            let i = choose|i: int| 0 <= i < m.len() && #[trigger] m[i] == id;
            assert(h[i].id == id);
        }
    }
    assert(ids_of(g) =~= ids_of(h));
}

/// One more step to an identifier not above the end of the path brings the search closer to its
/// end.
proof fn lemma_measure_step(g: Seq<Entry>, p: Seq<u64>, l: u64)
    requires
        p.len() >= 1,
        has_id(g, l),
        !p.drop_last().contains(l),
    ensures
        path_measure(g, p.push(l)) < path_measure(g, p),
{
    lemma_ids_of(g, g);
    let p2 = p.push(l);
    assert(p2.drop_last() =~= p);
    assert(p2.last() == l);
    let d = ids_of(g).difference(p.to_set());
    assert(d.finite());
    if p.to_set().contains(l) {
        let t = choose|t: int| 0 <= t < p.len() && p[t] == l;
        if t < p.len() - 1 {
            assert(p.drop_last()[t] == l);
        }
        assert(l == p.last());
        assert(!p.drop_last().contains(p.last()));
        assert(p.contains(l)) by {
            assert(p[p.len() - 1] == l);
        }
        assert forall|x: u64| p2.to_set().contains(x) <==> p.to_set().contains(x) by {
            if p2.to_set().contains(x) {
                let i = choose|i: int| 0 <= i < p2.len() && p2[i] == x;
                if i < p.len() {
                    assert(p[i] == x);
                }
            }
            if p.to_set().contains(x) {
                let i = choose|i: int| 0 <= i < p.len() && p[i] == x;
                assert(p2[i] == x);
            }
        }
        assert(p2.to_set() =~= p.to_set());
    } else {
        assert(p2.to_set() =~= p.to_set().insert(l)) by {
            assert forall|x: u64| p2.to_set().contains(x) <==> p.to_set().insert(l).contains(x) by {
                if p2.to_set().contains(x) {
                    let i = choose|i: int| 0 <= i < p2.len() && p2[i] == x;
                    if i < p.len() {
                        assert(p[i] == x);
                    }
                }
                if p.to_set().contains(x) {
                    let i = choose|i: int| 0 <= i < p.len() && p[i] == x;
                    assert(p2[i] == x);
                }
                if x == l {
                    assert(p2[p.len() as int] == l);
                }
            }
        }
        assert(ids_of(g).difference(p2.to_set()) =~= d.remove(l));
        assert(d.contains(l));
    }
}

/// A search from a single identifier starts closer to its end than one from nowhere.
proof fn lemma_measure_start(g: Seq<Entry>, l: u64)
    requires
        has_id(g, l),
    ensures
        path_measure(g, seq![l]) < 2 * ids_of(g).len() + 2,
{
    lemma_ids_of(g, g);
    vstd::set_lib::lemma_len_subset(ids_of(g).difference(seq![l].to_set()), ids_of(g));
    assert(seq![l].drop_last() =~= Seq::<u64>::empty());
}

/// The search from `p` steps on to `l`, not above the end of `p`: the longer path names entries,
/// follows links where `p` did, and leaves less of the search to do.
proof fn lemma_prune_step(orig: Seq<Entry>, g0: Seq<Entry>, g1: Seq<Entry>, p: Seq<u64>, l: u64, p2: Seq<u64>, has_path: bool, walks: bool)
    requires
        same_entries(orig, g0),
        same_entries(g0, g1),
        ids_distinct(g0),
        forall|u: u64, w: u64| #[trigger] edge(g0, u, w) ==> edge(orig, u, w),
        has_id(g0, l),
        has_path ==> p.len() >= 1 && p2 == p.push(l) && path_in(g0, p) && edge(g0, p.last(), l) && !p.drop_last().contains(l)
            && (walks == walk_in(orig, p)),
        !has_path ==> p2 == seq![l],
    ensures
        ids_distinct(g1),
        same_entries(orig, g1),
        forall|u: u64, w: u64| #[trigger] edge(g1, u, w) ==> edge(orig, u, w),
        path_in(g1, p2),
        (!has_path || walks) ==> walk_in(orig, p2),
        has_path ==> path_measure(g1, p2) < path_measure(g0, p),
        !has_path ==> path_measure(g1, p2) < 2 * ids_of(g0).len() + 2,
{
    lemma_same_entries_trans(orig, g0, g1);
    lemma_same_entries_edges(g0, g1);
    lemma_ids_of(g0, g1);
    assert(has_id(g1, l));
    if has_path {
        lemma_measure_step(g1, p, l);
        assert forall|i: int| 0 <= i < p2.len() implies has_id(g1, #[trigger] p2[i]) by {
            if i < p.len() {
                assert(p2[i] == p[i]);
                assert(has_id(g0, p[i]));
            }
        }
        if walks {
            assert forall|i: int| 0 <= i < p2.len() - 1 implies edge(orig, #[trigger] p2[i], p2[i + 1]) by {
                if i < p.len() - 1 {
                    assert(p2[i] == p[i] && p2[i + 1] == p[i + 1]);
                } else {
                    assert(p2[i] == p.last());
                }
            }
        }
    } else {
        lemma_measure_start(g1, l);
        assert forall|i: int| 0 <= i < p2.len() implies has_id(g1, #[trigger] p2[i]) by {}
    }
}

/// A path whose identifiers all name entries is keyed for any look back.
proof fn lemma_path_keyed(g: Seq<Entry>, p: Seq<u64>, x: u64)
    requires
        path_in(g, p),
    ensures
        keyed_to(g, p, x),
{
    reveal(keyed_to);
}

/// The position of the entry not in `seen` of highest priority (the last one among equals), where
/// one is left.
fn highest_unreached(nodes: &Vec<Entry>, seen: &HashSet<u64>) -> (best: Option<usize>)
    ensures
        best is Some ==> best.unwrap() < nodes@.len() && !seen@.contains(nodes@[best.unwrap() as int].id),
        best is Some ==> forall|j: int|
            0 <= j < nodes@.len() && !seen@.contains(#[trigger] nodes@[j].id) ==> nodes@[j].priority <= nodes@[best.unwrap() as int].priority,
        best is Some ==> forall|j: int|
            best.unwrap() < j < nodes@.len() && !seen@.contains(#[trigger] nodes@[j].id) ==> nodes@[j].priority < nodes@[best.unwrap() as int].priority,
        best is None ==> forall|j: int| 0 <= j < nodes@.len() ==> seen@.contains(#[trigger] nodes@[j].id),
        best is Some ==> top_unreached(entries_model(nodes@), seen@, best.unwrap() as int),
{
    let mut best: Option<usize> = None;
    let mut i: usize = 0;
    while i < nodes.len()
        invariant
            0 <= i <= nodes.len(),
            best is Some ==> best.unwrap() < i && !seen@.contains(nodes@[best.unwrap() as int].id),
            best is Some ==> forall|j: int|
                0 <= j < i && !seen@.contains(#[trigger] nodes@[j].id) ==> nodes@[j].priority <= nodes@[best.unwrap() as int].priority,
            best is Some ==> forall|j: int|
                best.unwrap() < j < i && !seen@.contains(#[trigger] nodes@[j].id) ==> nodes@[j].priority < nodes@[best.unwrap() as int].priority,
            best is None ==> forall|j: int| 0 <= j < i ==> seen@.contains(#[trigger] nodes@[j].id),
        decreases nodes.len() - i,
    {
        if !seen.contains(&nodes[i].id) {
            match best {
                None => {
                    best = Some(i);
                },
                Some(b) => {
                    if nodes[i].priority >= nodes[b].priority {
                        best = Some(i);
                    }
                },
            }
        }
        i += 1;
    }
    proof {
        if best is Some {
            let m = entries_model(nodes@);
            let b = best.unwrap() as int;
            assert forall|j: int| 0 <= j < m.len() && !seen@.contains(#[trigger] m[j].0) implies m[j].1 <= m[b].1 by {
                assert(!seen@.contains(nodes@[j].id));
            }
            assert forall|j: int| b < j < m.len() && !seen@.contains(#[trigger] m[j].0) implies m[j].1 < m[b].1 by {
                assert(!seen@.contains(nodes@[j].id));
            }
        }
    }
    best
}

fn priority_of(g: &Vec<Entry>, id: u64) -> (p: i64)
    requires
        ids_distinct(g@),
        has_id(g@, id),
    ensures
        p == prio(g@, id),
{
    let mut i: usize = 0;
    while i < g.len()
        invariant
            0 <= i <= g.len(),
            ids_distinct(g@),
            forall|j: int| 0 <= j < i ==> #[trigger] g@[j].id != id,
        decreases g.len() - i,
    {
        if g[i].id == id {
            proof {
                let k = index_of_id(g@, id);
                assert(g@[k].id == id);
                assert(k == i);
            }
            return g[i].priority;
        }
        i += 1;
    }
    proof {
        let k = choose|k: int| 0 <= k < g.len() && #[trigger] g@[k].id == id;
        assert(g@[k].id != id);
    }
    0
}


/// The identifiers that the search may step to next: with no path, those of the entries with
/// no afters; after a path, those of the entries that list the path's end among their afters.
fn next_steps(nodes: &Vec<Entry>, current_path: &Option<Rc<Node>>) -> (leaves: Vec<u64>)
    ensures
        forall|t: int| 0 <= t < leaves.len() ==> has_id(nodes@, #[trigger] leaves@[t]),
        current_path is Some ==> forall|t: int|
            0 <= t < leaves.len() ==> edge(nodes@, current_path.unwrap().id, #[trigger] leaves@[t]),
        current_path is Some ==> forall|w: u64|
            #[trigger] edge(nodes@, current_path.unwrap().id, w) ==> leaves@.contains(w),
        current_path is None ==> forall|j: int|
            0 <= j < nodes@.len() && (#[trigger] nodes@[j]).after@.is_empty() ==> leaves@.contains(nodes@[j].id),
        leaves@ == steps_upto(entries_model(nodes@), path_or_empty(*current_path), nodes@.len() as int),
{
    let mut leaves: Vec<u64> = Vec::new();
    let mut i: usize = 0;
    proof {
        if current_path is Some {
            let n = current_path.unwrap();
            assert(n.path().len() > 0 && n.path().last() == n.id);
        }
    }
    while i < nodes.len()
        invariant
            0 <= i <= nodes.len(),
            leaves@ == steps_upto(entries_model(nodes@), path_or_empty(*current_path), i as int),
            current_path is Some ==> path_or_empty(*current_path).len() > 0
                && path_or_empty(*current_path).last() == current_path.unwrap().id,
            forall|t: int| 0 <= t < leaves.len() ==> has_id(nodes@, #[trigger] leaves@[t]),
            current_path is Some ==> forall|t: int|
                0 <= t < leaves.len() ==> edge(nodes@, current_path.unwrap().id, #[trigger] leaves@[t]),
            current_path is Some ==> forall|j: int|
                0 <= j < i && (#[trigger] nodes@[j]).after@.contains(current_path.unwrap().id)
                    ==> leaves@.contains(nodes@[j].id),
            current_path is None ==> forall|j: int|
                0 <= j < i && (#[trigger] nodes@[j]).after@.is_empty() ==> leaves@.contains(nodes@[j].id),
        decreases nodes.len() - i,
    {
        let take = match current_path {
            Some(path_end) => nodes[i].after.contains(&path_end.id),
            None => nodes[i].after.is_empty(),
        };
        if take {
            let ghost before = leaves@;
            leaves.push(nodes[i].id);
            proof {
                assert(nodes@[i as int].id == nodes@[i as int].id);
                assert(leaves@[leaves.len() - 1] == nodes@[i as int].id);
                assert forall|j: int| 0 <= j <= i && #[trigger] nodes@[j].after@.contains(current_path.unwrap().id)
                    && current_path is Some implies leaves@.contains(nodes@[j].id) by {
                    if j < i {
                        let t = choose|t: int| 0 <= t < before.len() && before[t] == nodes@[j].id;
                        assert(leaves@[t] == nodes@[j].id);
                    } else {
                        assert(leaves@[leaves.len() - 1] == nodes@[j].id);
                    }
                }
                assert forall|j: int| 0 <= j <= i && #[trigger] nodes@[j].after@.is_empty()
                    && current_path is None implies leaves@.contains(nodes@[j].id) by {
                    if j < i {
                        let t = choose|t: int| 0 <= t < before.len() && before[t] == nodes@[j].id;
                        assert(leaves@[t] == nodes@[j].id);
                    } else {
                        assert(leaves@[leaves.len() - 1] == nodes@[j].id);
                    }
                }
            }
        }
        i += 1;
    }
    proof {
        if current_path is Some {
            assert forall|w: u64| #[trigger] edge(nodes@, current_path.unwrap().id, w) implies leaves@.contains(w) by {
                let j = choose|j: int| 0 <= j < nodes.len() && #[trigger] nodes@[j].id == w && nodes@[j].after@.contains(current_path.unwrap().id);
                assert(nodes@[j].after@.contains(current_path.unwrap().id));
            }
        }
    }
    leaves
}

/// Takes `value` out of the afters of the entry `id`.
fn remove_after(nodes: &mut Vec<Entry>, id: u64, value: u64)
    requires
        ids_distinct(old(nodes)@),
        has_id(old(nodes)@, id),
    ensures
        same_entries(old(nodes)@, final(nodes)@),
        forall|u: u64, w: u64| #[trigger] edge(final(nodes)@, u, w) <==> edge(old(nodes)@, u, w) && !(u == value && w == id),
        entries_model(final(nodes)@) == without_after(entries_model(old(nodes)@), id, value),
{
    let mut i: usize = 0;
    while i < nodes.len()
        invariant
            0 <= i <= nodes.len(),
            nodes@ == old(nodes)@,
            ids_distinct(nodes@),
            forall|j: int| 0 <= j < i ==> #[trigger] nodes@[j].id != id,
        decreases nodes.len() - i,
    {
        if nodes[i].id == id {
            let ghost g = nodes@;
            nodes[i].after.remove(&value);
            proof {
                assert(nodes@[i as int].after@ == g[i as int].after@.remove(value));
                assert forall|j: int| 0 <= j < g.len() implies (#[trigger] nodes@[j]).id == g[j].id && nodes@[j].priority
                    == g[j].priority && nodes@[j].after@.subset_of(g[j].after@) by {
                    if j == i {
                    } else {
                        assert(nodes@[j] == g[j]);
                    }
                }
                assert forall|u: u64, w: u64| #[trigger] edge(nodes@, u, w) <==> edge(g, u, w) && !(u == value && w == id) by {
                    if edge(nodes@, u, w) {
                        let j = choose|j: int| 0 <= j < nodes@.len() && #[trigger] nodes@[j].id == w && nodes@[j].after@.contains(u);
                        if j == i {
                            assert(g[j].id == w);
                        } else {
                            assert(nodes@[j] == g[j]);
                            assert(g[j].id == w);
                            assert(g[i as int].id == id);
                        }
                    }
                    if edge(g, u, w) && !(u == value && w == id) {
                        let j = choose|j: int| 0 <= j < g.len() && #[trigger] g[j].id == w && g[j].after@.contains(u);
                        if j == i {
                            assert(nodes@[j].id == w);
                        } else {
                            assert(nodes@[j] == g[j]);
                            assert(nodes@[j].id == w);
                        }
                    }
                }
                let mg = entries_model(g);
                assert forall|j: int| 0 <= j < g.len() implies #[trigger] entries_model(nodes@)[j]
                    == without_after(mg, id, value)[j] by {
                    if j != i {
                        assert(nodes@[j] == g[j]);
                        assert(g[j].id != g[i as int].id);
                    }
                }
                assert(entries_model(nodes@) =~= without_after(mg, id, value));
            }
            return;
        }
        i += 1;
    }
    proof {
        let k = choose|k: int| 0 <= k < nodes@.len() && #[trigger] nodes@[k].id == id;
        assert(nodes@[k].id != id);
    }
}

/// The position of the entry `id`.
fn entry_position(entries: &Vec<Entry>, id: u64) -> (i: usize)
    requires
        ids_distinct(entries@),
        has_id(entries@, id),
    ensures
        0 <= i < entries@.len(),
        entries@[i as int].id == id,
{
    let mut i: usize = 0;
    while i < entries.len()
        invariant
            0 <= i <= entries.len(),
            forall|j: int| 0 <= j < i ==> #[trigger] entries@[j].id != id,
        decreases entries.len() - i,
    {
        if entries[i].id == id {
            return i;
        }
        i += 1;
    }
    proof {
        let k = choose|k: int| 0 <= k < entries@.len() && #[trigger] entries@[k].id == id;
        assert(entries@[k].id != id);
    }
    0
}

/// One entry per identifier of the orderings, in order of first appearance, each running after
/// what the orderings ask (identifiers without an ordering left out), with the priority of its
/// last ordering; and the set of the identifiers.
fn merge_orderings(orderings: &Vec<(u64, HashSet<u64>, HashSet<u64>, i64)>) -> (merged: (Vec<Entry>, HashSet<u64>))
    ensures
        ids_distinct(merged.0@),
        deps_of(merged.0@) == merged_deps(orderings_view(orderings@)),
        forall|j: int| 0 <= j < merged.0@.len() ==> (#[trigger] merged.0@[j]).after@.finite(),
        forall|j: int| 0 <= j < merged.0@.len() ==> (#[trigger] merged.0@[j]).priority
            == last_priority(orderings_view(orderings@), merged.0@[j].id),
        merged.1@ == ordering_ids(orderings_view(orderings@)).to_set(),
        forall|id: u64| #[trigger] merged.1@.contains(id) <==> has_id(merged.0@, id),
{
    let ghost os = orderings_view(orderings@);
    let ghost ids = ordering_ids(os);
    let mut node_list: HashSet<u64> = HashSet::new();
    let mut entries: Vec<Entry> = Vec::new();

    // one entry per identifier
    let mut i: usize = 0;
    while i < orderings.len()
        invariant
            0 <= i <= orderings.len(),
            os == orderings_view(orderings@),
            ids == ordering_ids(os),
            node_list@ == ids.take(i as int).to_set(),
            id_seq(entries@) == first_ids(ids.take(i as int)),
            forall|j: int| 0 <= j < entries@.len() ==> (#[trigger] entries@[j]).after@ == Set::<u64>::empty()
                && entries@[j].priority == 0,
        decreases orderings.len() - i,
    {
        let id = orderings[i].0;
        proof {
            lemma_first_ids(ids.take(i as int));
            assert(ids.take(i + 1).drop_last() =~= ids.take(i as int));
            assert(ids.take(i + 1) =~= ids.take(i as int) + seq![id]);
            Seq::lemma_to_set_insert_commutes(ids.take(i as int), id);
        }
        if node_list.insert(id) {
            entries.push(Entry { id, after: HashSet::new(), priority: 0 });
            proof {
                assert(id_seq(entries@) =~= first_ids(ids.take(i as int)).push(id));
            }
        } else {
            proof {
                assert(first_ids(ids.take(i as int)).to_set().contains(id));
            }
        }
        i += 1;
    }
    proof {
        assert(ids.take(i as int) =~= ids);
        lemma_first_ids(ids);
        lemma_ids_from_seq(entries@, first_ids(ids), node_list@, ids);
    }

    // afters and priority from each ordering, the last one winning
    let mut i: usize = 0;
    while i < orderings.len()
        invariant
            0 <= i <= orderings.len(),
            os == orderings_view(orderings@),
            ids == ordering_ids(os),
            node_list@ == ids.to_set(),
            id_seq(entries@) == first_ids(ids),
            ids_distinct(entries@),
            forall|id: u64| #[trigger] node_list@.contains(id) <==> has_id(entries@, id),
            forall|j: int| 0 <= j < entries@.len() ==> (#[trigger] entries@[j]).after@ == last_after(os.take(i as int), entries@[j].id).intersect(node_list@)
                && entries@[j].after@.finite() && entries@[j].priority == last_priority(os.take(i as int), entries@[j].id),
        decreases orderings.len() - i,
    {
        let ghost before = entries@;
        let id = orderings[i].0;
        proof {
            assert(ids[i as int] == id);
            assert(node_list@.contains(id));
        }
        let pos = entry_position(&entries, id);
        let after = set_within(&orderings[i].2, &node_list);
        entries[pos].after = after;
        entries[pos].priority = orderings[i].3;
        proof {
            assert(os.take(i + 1).drop_last() =~= os.take(i as int));
            assert(os.take(i + 1).last() == os[i as int]);
            assert(id_seq(entries@) =~= id_seq(before)) by {
                assert forall|j: int| 0 <= j < entries@.len() implies id_seq(entries@)[j] == id_seq(before)[j] by {
                    if j != pos {
                        assert(entries@[j] == before[j]);
                    }
                }
            }
            lemma_ids_same(before, entries@);
            assert forall|j: int| 0 <= j < entries@.len() implies (#[trigger] entries@[j]).after@ == last_after(os.take(i + 1), entries@[j].id).intersect(node_list@)
                && entries@[j].after@.finite() && entries@[j].priority == last_priority(os.take(i + 1), entries@[j].id) by {
                if j == pos {
                } else {
                    assert(entries@[j] == before[j]);
                    assert(before[j].id != id) by {
                        assert(before[pos as int].id == id);
                    }
                }
            }
        }
        i += 1;
    }
    proof {
        assert(os.take(i as int) =~= os);
    }

    // every identifier runs after those that say they run before it
    let mut i: usize = 0;
    while i < orderings.len()
        invariant
            0 <= i <= orderings.len(),
            os == orderings_view(orderings@),
            ids == ordering_ids(os),
            node_list@ == ids.to_set(),
            id_seq(entries@) == first_ids(ids),
            ids_distinct(entries@),
            forall|id: u64| #[trigger] node_list@.contains(id) <==> has_id(entries@, id),
            forall|j: int| 0 <= j < entries@.len() ==> (#[trigger] entries@[j]).after@ == last_after(os, entries@[j].id).intersect(node_list@).union(put_before(os.take(i as int), entries@[j].id))
                && entries@[j].after@.finite() && entries@[j].priority == last_priority(os, entries@[j].id),
        decreases orderings.len() - i,
    {
        let befores = set_items(&orderings[i].1);
        let id = orderings[i].0;
        let ghost start = entries@;
        let mut t: usize = 0;
        while t < befores.len()
            invariant
                0 <= t <= befores.len(),
                0 <= i < orderings.len(),
                os == orderings_view(orderings@),
                id == os[i as int].0,
                befores@.to_set() == os[i as int].1,
                node_list@ == ids.to_set(),
                id_seq(entries@) == id_seq(start),
                ids_distinct(entries@),
                forall|x: u64| #[trigger] node_list@.contains(x) <==> has_id(entries@, x),
                forall|j: int| 0 <= j < entries@.len() ==> (#[trigger] entries@[j]).after@ == start[j].after@.union(
                    if befores@.take(t as int).contains(entries@[j].id) { Set::empty().insert(id) } else { Set::empty() })
                    && entries@[j].after@.finite() && entries@[j].priority == start[j].priority,
                start.len() == entries@.len(),
                forall|j: int| 0 <= j < start.len() ==> (#[trigger] start[j]).after@.finite(),
            decreases befores.len() - t,
        {
            let b = befores[t];
            let ghost before = entries@;
            if node_list.contains(&b) {
                let pos = entry_position(&entries, b);
                entries[pos].after.insert(id);
                proof {
                    assert forall|j: int| 0 <= j < entries@.len() implies id_seq(entries@)[j] == id_seq(before)[j] by {
                        if j != pos {
                            assert(entries@[j] == before[j]);
                        }
                    }
                    assert(id_seq(entries@) =~= id_seq(before));
                    lemma_ids_same(before, entries@);
                }
            } else {
                proof {
                    assert forall|j: int| 0 <= j < entries@.len() implies entries@[j].id != b by {
                        if entries@[j].id == b {
                            assert(has_id(entries@, b));
                        }
                    }
                }
            }
            proof {
                assert(befores@.take(t + 1) =~= befores@.take(t as int).push(b));
                assert forall|j: int| 0 <= j < entries@.len() implies (#[trigger] entries@[j]).after@ == start[j].after@.union(
                    if befores@.take(t + 1).contains(entries@[j].id) { Set::empty().insert(id) } else { Set::empty() })
                    && entries@[j].after@.finite() && entries@[j].priority == start[j].priority by {
                    assert(id_seq(entries@)[j] == id_seq(start)[j]);
                    if befores@.take(t + 1).contains(entries@[j].id) && !befores@.take(t as int).contains(entries@[j].id) {
                        assert(entries@[j].id == b);
                    }
                    if befores@.take(t as int).contains(entries@[j].id) {
                        let k = choose|k: int| 0 <= k < t && befores@.take(t as int)[k] == entries@[j].id;
                        assert(befores@.take(t + 1)[k] == entries@[j].id);
                    }
                    if entries@[j].id == b {
                        assert(befores@.take(t + 1)[t as int] == b);
                    }
                }
            }
            t += 1;
        }
        proof {
            assert(befores@.take(t as int) =~= befores@);
            assert forall|j: int| 0 <= j < entries@.len() implies (#[trigger] entries@[j]).after@ == last_after(os, entries@[j].id).intersect(node_list@).union(put_before(os.take(i + 1), entries@[j].id))
                && entries@[j].after@.finite() && entries@[j].priority == last_priority(os, entries@[j].id) by {
                let x = entries@[j].id;
                assert(id_seq(entries@)[j] == id_seq(start)[j]);
                assert(start[j].id == x);
                assert(put_before(os.take(i + 1), x) =~= put_before(os.take(i as int), x).union(
                    if os[i as int].1.contains(x) { Set::empty().insert(id) } else { Set::empty() })) by {
                    assert forall|n: u64| #[trigger] put_before(os.take(i + 1), x).contains(n) <==> put_before(os.take(i as int), x).union(
                        if os[i as int].1.contains(x) { Set::empty().insert(id) } else { Set::empty() }).contains(n) by {
                        if put_before(os.take(i + 1), x).contains(n) {
                            let k = choose|k: int| 0 <= k < os.take(i + 1).len() && #[trigger] os.take(i + 1)[k].0 == n && os.take(i + 1)[k].1.contains(x);
                            if k < i {
                                assert(os.take(i as int)[k].0 == n);
                            }
                        }
                        if put_before(os.take(i as int), x).contains(n) {
                            let k = choose|k: int| 0 <= k < os.take(i as int).len() && #[trigger] os.take(i as int)[k].0 == n && os.take(i as int)[k].1.contains(x);
                            assert(os.take(i + 1)[k].0 == n);
                        }
                        if os[i as int].1.contains(x) && n == id {
                            assert(os.take(i + 1)[i as int].0 == n);
                        }
                    }
                }
                assert(befores@.contains(x) <==> os[i as int].1.contains(x)) by {
                    assert(befores@.to_set().contains(x) <==> befores@.contains(x));
                }
            }
        }
        i += 1;
    }
    proof {
        assert(os.take(i as int) =~= os);
        let m = merged_deps(os);
        lemma_first_ids(ids);
        assert forall|j: int| 0 <= j < entries@.len() implies deps_of(entries@)[j] == m[j] by {
            let x = entries@[j].id;
            assert(id_seq(entries@)[j] == first_ids(ids)[j]);
            assert(put_before(os, x).subset_of(ids.to_set())) by {
                assert forall|n: u64| put_before(os, x).contains(n) implies ids.to_set().contains(n) by {
                    let k = choose|k: int| 0 <= k < os.len() && #[trigger] os[k].0 == n && os[k].1.contains(x);
                    assert(ids[k] == n);
                }
            }
            assert(merged_after(os, x) =~= entries@[j].after@);
        }
        assert(deps_of(entries@) =~= m);
    }
    (entries, node_list)
}

proof fn lemma_ids_from_seq(entries: Seq<Entry>, s: Seq<u64>, set: Set<u64>, ids: Seq<u64>)
    requires
        id_seq(entries) == s,
        s.no_duplicates(),
        s.to_set() == ids.to_set(),
        set == ids.to_set(),
    ensures
        ids_distinct(entries),
        forall|id: u64| #[trigger] set.contains(id) <==> has_id(entries, id),
{
    assert forall|i: int, j: int| 0 <= i < entries.len() && 0 <= j < entries.len() && i != j implies #[trigger] entries[i].id != #[trigger] entries[j].id by {
        assert(s[i] == entries[i].id && s[j] == entries[j].id);
    }
    assert forall|id: u64| #[trigger] set.contains(id) <==> has_id(entries, id) by {
        if set.contains(id) {
            assert(s.to_set().contains(id));
            let k = choose|k: int| 0 <= k < s.len() && s[k] == id;
            assert(entries[k].id == id);
        }
        if has_id(entries, id) {
            let k = choose|k: int| 0 <= k < entries.len() && #[trigger] entries[k].id == id;
            assert(s[k] == id);
            assert(s.to_set().contains(id));
        }
    }
}

proof fn lemma_ids_same(a: Seq<Entry>, b: Seq<Entry>)
    requires
        id_seq(a) == id_seq(b),
        ids_distinct(a),
    ensures
        ids_distinct(b),
        forall|id: u64| has_id(a, id) <==> has_id(b, id),
{
    assert(a.len() == id_seq(a).len());
    assert(b.len() == id_seq(b).len());
    assert forall|i: int, j: int| 0 <= i < b.len() && 0 <= j < b.len() && i != j implies #[trigger] b[i].id != #[trigger] b[j].id by {
        assert(id_seq(a)[i] == id_seq(b)[i]);
        assert(id_seq(a)[j] == id_seq(b)[j]);
        assert(id_seq(a)[i] == a[i].id && id_seq(b)[i] == b[i].id);
        assert(id_seq(a)[j] == a[j].id && id_seq(b)[j] == b[j].id);
        assert(a[i].id != a[j].id);
    }
    assert forall|id: u64| has_id(a, id) <==> has_id(b, id) by {
        if has_id(a, id) {
            let k = choose|k: int| 0 <= k < a.len() && #[trigger] a[k].id == id;
            assert(id_seq(a)[k] == id_seq(b)[k]);
            assert(id_seq(a)[k] == a[k].id && id_seq(b)[k] == b[k].id);
            assert(b[k].id == id);
        }
        if has_id(b, id) {
            let k = choose|k: int| 0 <= k < b.len() && #[trigger] b[k].id == id;
            assert(id_seq(a)[k] == id_seq(b)[k]);
            assert(id_seq(a)[k] == a[k].id && id_seq(b)[k] == b[k].id);
            assert(a[k].id == id);
        }
    }
}

/// The identifier and the afters of each entry, in order.
fn into_dependencies(entries: Vec<Entry>) -> (nodes: Vec<(u64, HashSet<u64>)>)
    ensures
        nodes@.len() == entries@.len(),
        forall|i: int| 0 <= i < entries@.len() ==> (#[trigger] nodes@[i]).0 == entries@[i].id && nodes@[i].1@ == entries@[i].after@,
{
    let ghost entries0 = entries@;
    let mut entries = entries;
    let mut reversed: Vec<Entry> = Vec::new();
    while entries.len() > 0
        invariant
            entries@.len() + reversed@.len() == entries0.len(),
            forall|i: int| 0 <= i < entries@.len() ==> #[trigger] entries@[i] == entries0[i],
            forall|i: int| 0 <= i < reversed@.len() ==> #[trigger] reversed@[i] == entries0[entries0.len() - 1 - i],
        decreases entries.len(),
    {
        let e = entries.pop().unwrap();
        reversed.push(e);
    }
    let mut nodes: Vec<(u64, HashSet<u64>)> = Vec::new();
    while reversed.len() > 0
        invariant
            reversed@.len() + nodes@.len() == entries0.len(),
            forall|i: int| 0 <= i < reversed@.len() ==> #[trigger] reversed@[i] == entries0[entries0.len() - 1 - i],
            forall|i: int| 0 <= i < nodes@.len() ==> (#[trigger] nodes@[i]).0 == entries0[i].id && nodes@[i].1@ == entries0[i].after@,
        decreases reversed.len(),
    {
        let e = reversed.pop().unwrap();
        nodes.push((e.id, e.after));
    }
    nodes
}

impl Node {
    /// The identifiers of the path at and above a node, from the root.
    proof fn lemma_path_nonempty(&self)
        ensures
            self.path().len() >= 1,
            self.path().last() == self.id,
    {
    }
}

/// A dependency graph of identifiers, with the progress of one run through it.
pub struct ExecutionGraph {
    finished: bool,
    nodes: Vec<(u64, HashSet<u64>)>,
    current_flow: Vec<(u64, (usize, u8))>,
}

impl ExecutionGraph {
    /// A node that has not started.
    pub const INIT: u8 = 0;
    /// A node that has been handed out and not yet finished.
    pub const PENDING: u8 = 1;
    /// A node that has finished.
    pub const FINISHED: u8 = 2;

    /// Each node's identifier with the identifiers it must run after.
    pub closed spec fn deps(&self) -> Seq<(u64, Set<u64>)> {
        self.nodes@.map_values(|n: (u64, HashSet<u64>)| (n.0, n.1@))
    }

    /// Each node's identifier with its count of dependencies still to finish and its state.
    pub closed spec fn flow(&self) -> Seq<(u64, (usize, u8))> {
        self.current_flow@
    }

    /// Whether the graph says it has finished.
    pub closed spec fn is_finished(&self) -> bool {
        self.finished
    }

    /// The node `a` has finished.
    pub open spec fn done(&self, a: u64) -> bool {
        exists|j: int|
            0 <= j < self.flow().len() && #[trigger] self.flow()[j].0 == a && self.flow()[j].1.1
                == Self::FINISHED
    }

    /// The dependencies of the node at `i` that have not finished.
    pub open spec fn unfinished_deps(&self, i: int) -> Set<u64> {
        self.deps()[i].1.filter(|a: u64| !self.done(a))
    }

    /// The position of the node `id`.
    pub open spec fn position(&self, id: u64) -> int {
        choose|i: int| 0 <= i < self.flow().len() && #[trigger] self.flow()[i].0 == id
    }

    /// Some node carries the identifier `id`.
    pub open spec fn has_node(&self, id: u64) -> bool {
        exists|i: int| 0 <= i < self.flow().len() && #[trigger] self.flow()[i].0 == id
    }

    /// The invariant of a graph: the progress lines up with the nodes, identifiers are distinct,
    /// every dependency names a node, every count is the number of dependencies still to
    /// finish, and no dependencies form a cycle.
    pub open spec fn wf(&self) -> bool {
        let d = self.deps();
        let f = self.flow();
        &&& d.len() == f.len()
        &&& forall|i: int| 0 <= i < d.len() ==> (#[trigger] f[i]).0 == d[i].0
        &&& forall|i: int, j: int| 0 <= i < d.len() && 0 <= j < d.len() && i != j ==> #[trigger] f[i].0 != #[trigger] f[j].0
        &&& forall|i: int| 0 <= i < d.len() ==> (#[trigger] d[i]).1.finite()
        &&& forall|i: int, a: u64| 0 <= i < d.len() && #[trigger] d[i].1.contains(a) ==> self.has_node(a)
        &&& forall|i: int| 0 <= i < f.len() ==> (#[trigger] f[i]).1.1 <= Self::FINISHED
        &&& forall|i: int| 0 <= i < f.len() ==> (#[trigger] f[i]).1.0 == self.unfinished_deps(i).len()
        &&& dep_acyclic(d)
    }

    /// The nodes that may run now (not finished, with no dependency left to finish) among the
    /// first `n`, in order, each with its state.
    pub open spec fn leaves_upto(&self, n: int) -> Seq<(u64, u8)>
        decreases n,
    {
        if n <= 0 {
            Seq::empty()
        } else {
            let e = self.flow()[n - 1];
            let before = self.leaves_upto(n - 1);
            if e.1.1 != Self::FINISHED && e.1.0 == 0 {
                before.push((e.0, e.1.1))
            } else {
                before
            }
        }
    }

    /// `graph` is what the orderings `os` give: well formed; finished exactly where there are no
    /// orderings; one node per identifier, in order of first appearance, running after a part of
    /// what the orderings ask, where every dependency left out lies on a closed walk of what they
    /// ask on which it leaves the identifier of highest priority; nothing started.
    pub open spec fn meets_orderings(graph: ExecutionGraph, os: Seq<(u64, Set<u64>, Set<u64>, i64)>) -> bool {
        &&& graph.wf()
        &&& os.len() == 0 ==> graph.is_finished() && graph.deps().len() == 0
        &&& os.len() > 0 ==> !graph.is_finished()
        &&& graph.deps().len() == merged_deps(os).len()
        &&& forall|i: int|
            0 <= i < graph.deps().len() ==> (#[trigger] graph.deps()[i]).0 == merged_deps(os)[i].0
                && graph.deps()[i].1.subset_of(merged_deps(os)[i].1)
        &&& forall|u: u64, w: u64|
            #[trigger] depends(merged_deps(os), u, w) && !depends(graph.deps(), u, w) ==> dep_on_closed_walk(merged_deps(os), os, u, w)
        &&& forall|i: int| 0 <= i < graph.flow().len() ==> (#[trigger] graph.flow()[i]).1.1 == Self::INIT
        &&& graph.deps().len() == broken_model(merged_model(os)).len()
        &&& forall|i: int|
            0 <= i < graph.deps().len() ==> #[trigger] graph.deps()[i] == (
                broken_model(merged_model(os))[i].0,
                broken_model(merged_model(os))[i].2,
            )
    }

    /// Builds the graph from what each node's ordering says (its identifier, what it runs
    /// before, what it runs after, its priority): one node per identifier, in order of first
    /// appearance, running after what the orderings ask (the last ordering of an identifier
    /// gives its afters and priority; identifiers without an ordering are left out), with every
    /// cycle broken, nothing started. With no orderings, the graph is empty and finished.
    pub fn from_orderings(orderings: Vec<(u64, HashSet<u64>, HashSet<u64>, i64)>) -> (graph: Self)
        ensures
            Self::meets_orderings(graph, orderings_view(orderings@)),
    {
        let ghost os = orderings_view(orderings@);
        if orderings.len() == 0 {
            proof {
                assert(ordering_ids(os) =~= Seq::<u64>::empty());
                assert(first_ids(ordering_ids(os)) =~= Seq::<u64>::empty());
            }
            return Self::new_empty();
        }
        let (mut entries, node_list) = merge_orderings(&orderings);
        let ghost e0 = entries@;
        Self::break_cycles(&mut entries, &node_list);
        let ghost e1 = entries@;
        let nodes = into_dependencies(entries);
        let current_flow = Self::create_flow(&nodes);
        let graph = ExecutionGraph { finished: false, nodes, current_flow };
        proof {
            let m = merged_deps(os);
            assert(graph.deps() =~= deps_of(e1)) by {
                assert forall|i: int| 0 <= i < graph.deps().len() implies graph.deps()[i] == deps_of(e1)[i] by {
                    assert(graph.nodes@[i].0 == e1[i].id);
                }
            }
            lemma_deps_bridge(e0, m);
            lemma_deps_bridge(e1, graph.deps());
            lemma_same_entries_edges(e0, e1);
            assert forall|j: int, a: u64| 0 <= j < e0.len() && #[trigger] e0[j].after@.contains(a) implies node_list@.contains(a) by {
                assert(deps_of(e0)[j] == m[j]);
                assert(deps_of(e0)[j].1 == e0[j].after@);
                lemma_first_ids(ordering_ids(os));
                assert(e0.len() == deps_of(e0).len());
                assert(m[j] == (first_ids(ordering_ids(os))[j], merged_after(os, first_ids(ordering_ids(os))[j])));
                assert(merged_after(os, first_ids(ordering_ids(os))[j]).contains(a));
            }
            lemma_built_wf(graph, e0, e1, node_list@);
            assert(entries_model(e0) =~= merged_model(os)) by {
                lemma_first_ids(ordering_ids(os));
                assert(e0.len() == deps_of(e0).len());
                assert(m.len() == first_ids(ordering_ids(os)).len());
                assert forall|j: int| 0 <= j < e0.len() implies #[trigger] entries_model(e0)[j] == merged_model(os)[j] by {
                    let x = first_ids(ordering_ids(os))[j];
                    assert(deps_of(e0)[j] == m[j]);
                    assert(m[j] == (x, merged_after(os, x)));
                    assert(e0[j].id == x);
                    assert(e0[j].priority == last_priority(os, e0[j].id));
                }
            }
            assert forall|i: int| 0 <= i < graph.deps().len() implies #[trigger] graph.deps()[i] == (
                broken_model(merged_model(os))[i].0,
                broken_model(merged_model(os))[i].2,
            ) by {
                assert(deps_of(e1)[i] == graph.deps()[i]);
                assert(entries_model(e1)[i] == broken_model(merged_model(os))[i]);
            }
            assert forall|i: int| 0 <= i < graph.deps().len() implies (#[trigger] graph.deps()[i]).0 == m[i].0
                && graph.deps()[i].1.subset_of(m[i].1) by {
                assert(deps_of(e0)[i] == m[i]);
                assert(e1[i].id == e0[i].id);
            }
            assert forall|u: u64, w: u64| #[trigger] depends(m, u, w) && !depends(graph.deps(), u, w) implies dep_on_closed_walk(m, os, u, w) by {
                assert(edge(e0, u, w));
                assert(!edge(e1, u, w));
                assert(on_closed_walk(e0, u, w));
                lemma_top_bridge(e0, os, u, w);
            }
        }
        graph
    }

    /// Builds the graph from the orderings of its nodes: each node's ordering is first narrowed to
    /// the identifiers present, then taken apart into what it runs before, what it runs after and
    /// its priority (see `from_orderings`). With no nodes, the graph is empty and finished.
    pub fn new<Y: ExecutionOrdering>(nodes: &[(u64, &Y)]) -> (graph: Self)
        ensures
            Self::meets_orderings(graph, subsumed_orderings(nodes@)),
    {
        let ghost ids = nodes@.map_values(|n: (u64, &Y)| n.0);
        if nodes.len() == 0 {
            proof {
                assert(subsumed_orderings(nodes@) =~= Seq::<(u64, Set<u64>, Set<u64>, i64)>::empty());
                assert(ordering_ids(subsumed_orderings(nodes@)) =~= Seq::<u64>::empty());
                assert(first_ids(Seq::<u64>::empty()) =~= Seq::<u64>::empty());
            }
            return Self::new_empty();
        }
        let mut node_list: HashSet<u64> = HashSet::new();
        let mut i: usize = 0;
        while i < nodes.len()
            invariant
                0 <= i <= nodes@.len(),
                ids == nodes@.map_values(|n: (u64, &Y)| n.0),
                node_list@ == ids.take(i as int).to_set(),
            decreases nodes.len() - i,
        {
            node_list.insert(nodes[i].0);
            proof {
                assert(ids.take(i + 1) =~= ids.take(i as int).push(ids[i as int]));
                Seq::lemma_to_set_insert_commutes(ids.take(i as int), ids[i as int]);
                assert(ids.take(i as int).push(ids[i as int]) =~= ids.take(i as int) + seq![ids[i as int]]);
            }
            i += 1;
        }
        proof {
            assert(ids.take(nodes@.len() as int) =~= ids);
        }
        let mut consumed: Vec<(u64, HashSet<u64>, HashSet<u64>, i64)> = Vec::new();
        let mut i: usize = 0;
        while i < nodes.len()
            invariant
                0 <= i <= nodes@.len(),
                ids == nodes@.map_values(|n: (u64, &Y)| n.0),
                node_list@ == ids.to_set(),
                consumed@.len() == i,
                forall|j: int| 0 <= j < i ==> #[trigger] orderings_view(consumed@)[j] == subsumed_orderings(nodes@)[j],
            decreases nodes.len() - i,
        {
            let (node, ordering) = nodes[i];
            let (befores, afters, priority) = ordering.subsume(&node_list).consume();
            let ghost before = consumed@;
            consumed.push((node, befores, afters, priority));
            proof {
                assert forall|j: int| 0 <= j < i + 1 implies #[trigger] orderings_view(consumed@)[j] == subsumed_orderings(nodes@)[j] by {
                    if j < i {
                        assert(consumed@[j] == before[j]);
                        assert(orderings_view(before)[j] == subsumed_orderings(nodes@)[j]);
                    }
                }
            }
            i += 1;
        }
        proof {
            assert(orderings_view(consumed@) =~= subsumed_orderings(nodes@));
        }
        Self::from_orderings(consumed)
    }

    /// An empty graph, finished from the start.
    pub fn new_empty() -> (graph: Self)
        ensures
            graph.is_finished(),
            graph.deps().len() == 0,
            graph.flow().len() == 0,
            graph.wf(),
    {
        let graph = ExecutionGraph { finished: true, nodes: Vec::new(), current_flow: Vec::new() };
        proof {
            assert(graph.deps() =~= Seq::<(u64, Set<u64>)>::empty());
            assert forall|c: Seq<u64>| !#[trigger] dep_closed_walk(graph.deps(), c) by {
                if c.len() >= 1 {
                    assert(!depends(graph.deps(), c[0], c[(0int + 1) % (c.len() as int)]));
                }
            }
        }
        graph
    }

    /// Whether the graph says it has finished: only an empty graph does.
    pub fn finished(&self) -> (r: bool)
        ensures
            r == self.is_finished(),
    {
        self.finished
    }

    /// The starting progress of each node: its number of dependencies, and not started.
    pub fn create_flow(nodes: &Vec<(u64, HashSet<u64>)>) -> (flow: Vec<(u64, (usize, u8))>)
        ensures
            flow@.len() == nodes@.len(),
            forall|i: int|
                0 <= i < nodes@.len() ==> (#[trigger] flow@[i]).0 == nodes@[i].0 && flow@[i].1.0
                    == nodes@[i].1@.len() && flow@[i].1.1 == Self::INIT,
    {
        let mut flow: Vec<(u64, (usize, u8))> = Vec::new();
        let mut i: usize = 0;
        while i < nodes.len()
            invariant
                0 <= i <= nodes.len(),
                flow@.len() == i,
                forall|j: int|
                    0 <= j < i ==> (#[trigger] flow@[j]).0 == nodes@[j].0 && flow@[j].1.0
                        == nodes@[j].1@.len() && flow@[j].1.1 == Self::INIT,
            decreases nodes.len() - i,
        {
            flow.push((nodes[i].0, (nodes[i].1.len(), Self::INIT)));
            i += 1;
        }
        flow
    }

    /// The nodes that may run now: not finished, with every dependency finished; each with its
    /// state, in the graph's order.
    pub fn leaves(&self) -> (leaves: Vec<(u64, u8)>)
        ensures
            leaves@ == self.leaves_upto(self.flow().len() as int),
            exists|pos: Seq<int>|
                #![trigger pos.len()]
                {
                    &&& pos.len() == leaves@.len()
                    &&& forall|s: int, t: int| 0 <= s < t < pos.len() ==> pos[s] < pos[t]
                    &&& forall|t: int|
                        0 <= t < pos.len() ==> 0 <= #[trigger] pos[t] < self.flow().len() && leaves@[t] == (
                            self.flow()[pos[t]].0,
                            self.flow()[pos[t]].1.1,
                        ) && self.flow()[pos[t]].1.1 != Self::FINISHED && self.flow()[pos[t]].1.0 == 0
                    &&& forall|i: int|
                        0 <= i < self.flow().len() && self.flow()[i].1.1 != Self::FINISHED && self.flow()[i].1.0 == 0
                            ==> pos.contains(i)
                },
            self.wf() ==> leaves@.map_values(|l: (u64, u8)| l.0).no_duplicates(),
    {
        let mut leaves: Vec<(u64, u8)> = Vec::new();
        let mut i: usize = 0;
        while i < self.current_flow.len()
            invariant
                0 <= i <= self.current_flow.len(),
                leaves@ == self.leaves_upto(i as int),
            decreases self.current_flow.len() - i,
        {
            let (id, (dependents, finished)) = self.current_flow[i];
            if finished != Self::FINISHED && dependents == 0 {
                leaves.push((id, finished));
            }
            i += 1;
        }
        proof {
            let pos = lemma_exec_leaves_exact(*self, self.flow().len() as int);
            assert(pos.len() == leaves@.len());
            if self.wf() {
                let ids = leaves@.map_values(|l: (u64, u8)| l.0);
                assert forall|a: int, b: int| 0 <= a < ids.len() && 0 <= b < ids.len() && a != b implies ids[a] != ids[b] by {
                    if a < b {
                        assert(pos[a] < pos[b]);
                    } else {
                        assert(pos[b] < pos[a]);
                    }
                    assert(self.flow()[pos[a]].0 != self.flow()[pos[b]].0);
                }
            }
        }
        leaves
    }


    /// The nodes that have not finished.
    pub open spec fn unfinished(&self) -> Set<u64> {
        Set::new(|a: u64| self.has_node(a) && !self.done(a))
    }

    /// `new` is `old` after `marking` finished: `marking`'s state is finished, and where it was
    /// not before, each node that depends on it has one dependency fewer to wait for (a count
    /// already at zero stays there); nothing else changes.
    pub open spec fn complete_step(old: ExecutionGraph, new: ExecutionGraph, marking: u64) -> bool {
        &&& new.deps() == old.deps()
        &&& new.is_finished() == old.is_finished()
        &&& new.flow().len() == old.flow().len()
        &&& forall|t: int|
            0 <= t < old.flow().len() ==> {
                let o = #[trigger] old.flow()[t];
                let n = new.flow()[t];
                &&& n.0 == o.0
                &&& n.1.1 == (if o.0 == marking { Self::FINISHED } else { o.1.1 })
                &&& n.1.0 == (if !old.done(marking) && old.deps()[t].1.contains(marking) && o.1.0 != 0 {
                    (o.1.0 - 1) as usize
                } else {
                    o.1.0
                })
            }
    }

    /// Marks `marking` as finished; unless it had already finished, each node that depends on
    /// it has one dependency fewer to wait for.
    pub fn mark_as_complete(&mut self, marking: &u64)
        requires
            old(self).wf(),
            old(self).has_node(*marking),
        ensures
            Self::complete_step(*old(self), *final(self), *marking),
            final(self).wf(),
    {
        let ghost g0 = *self;
        let i = self.position_of(*marking);
        let (id, (dependents, previous_state)) = self.current_flow[i];
        self.current_flow[i] = (id, (dependents, Self::FINISHED));
        if previous_state == Self::FINISHED {
            proof {
                assert(self.current_flow@ =~= g0.current_flow@);
                assert(g0.done(*marking));
                assert(Self::complete_step(g0, *self, *marking));
                lemma_complete_step_wf(g0, *self, *marking);
            }
            return;
        }
        proof {
            assert(!g0.done(*marking)) by {
                if g0.done(*marking) {
                    let j = choose|j: int| 0 <= j < g0.flow().len() && #[trigger] g0.flow()[j].0 == *marking && g0.flow()[j].1.1 == Self::FINISHED;
                    assert(j == i);
                }
            }
        }
        let mut t: usize = 0;
        while t < self.nodes.len()
            invariant
                0 <= t <= self.nodes.len(),
                g0.wf(),
                !g0.done(*marking),
                g0.flow()[i as int].0 == *marking,
                0 <= i < g0.flow().len(),
                self.nodes@ == g0.nodes@,
                self.finished == g0.finished,
                self.current_flow@.len() == g0.current_flow@.len(),
                forall|u: int|
                    0 <= u < g0.flow().len() ==> {
                        let o = #[trigger] g0.flow()[u];
                        let n = self.current_flow@[u];
                        &&& n.0 == o.0
                        &&& n.1.1 == (if o.0 == *marking { Self::FINISHED } else { o.1.1 })
                        &&& n.1.0 == (if u < t && g0.deps()[u].1.contains(*marking) && o.1.0 != 0 {
                            (o.1.0 - 1) as usize
                        } else {
                            o.1.0
                        })
                    },
            decreases self.nodes.len() - t,
        {
            if self.nodes[t].1.contains(marking) {
                let (tid, (value, state)) = self.current_flow[t];
                if value != 0 {
                    self.current_flow[t] = (tid, (value - 1, state));
                }
            }
            t += 1;
        }
        proof {
            assert(Self::complete_step(g0, *self, *marking));
            lemma_complete_step_wf(g0, *self, *marking);
        }
    }

    /// Marks `pending`, which has not started, as handed out.
    pub fn mark_as_pending(&mut self, pending: &u64)
        requires
            old(self).wf(),
            old(self).has_node(*pending),
            old(self).flow()[old(self).position(*pending)].1.1 == Self::INIT,
        ensures
            final(self).wf(),
            final(self).deps() == old(self).deps(),
            final(self).is_finished() == old(self).is_finished(),
            final(self).flow() == old(self).flow().update(
                old(self).position(*pending),
                (*pending, (old(self).flow()[old(self).position(*pending)].1.0, Self::PENDING)),
            ),
    {
        let ghost g0 = *self;
        let i = self.position_of(*pending);
        let (id, (dependents, _)) = self.current_flow[i];
        self.current_flow[i] = (id, (dependents, Self::PENDING));
        proof {
            lemma_pending_wf(g0, *self, i as int);
        }
    }

    /// Whether some node carries `id`.
    pub fn contains_node(&self, id: &u64) -> (r: bool)
        ensures
            r == self.has_node(*id),
    {
        let mut i: usize = 0;
        while i < self.current_flow.len()
            invariant
                0 <= i <= self.current_flow.len(),
                forall|j: int| 0 <= j < i ==> #[trigger] self.flow()[j].0 != *id,
            decreases self.current_flow.len() - i,
        {
            if self.current_flow[i].0 == *id {
                assert(self.flow()[i as int].0 == *id);
                return true;
            }
            i += 1;
        }
        false
    }

    /// The state of the node `id`, where there is one.
    pub fn state(&self, id: &u64) -> (r: Option<u8>)
        requires
            self.wf(),
        ensures
            r == (if self.has_node(*id) { Some(self.flow()[self.position(*id)].1.1) } else { None::<u8> }),
    {
        if self.contains_node(id) {
            let i = self.position_of(*id);
            Some(self.current_flow[i].1.1)
        } else {
            None
        }
    }

    fn position_of(&self, id: u64) -> (i: usize)
        requires
            self.wf(),
            self.has_node(id),
        ensures
            i == self.position(id),
            0 <= i < self.flow().len(),
            self.flow()[i as int].0 == id,
    {
        let mut i: usize = 0;
        while i < self.current_flow.len()
            invariant
                0 <= i <= self.current_flow.len(),
                self.wf(),
                forall|j: int| 0 <= j < i ==> #[trigger] self.flow()[j].0 != id,
            decreases self.current_flow.len() - i,
        {
            if self.current_flow[i].0 == id {
                proof {
                    let k = self.position(id);
                    assert(self.flow()[k].0 == id);
                }
                return i;
            }
            i += 1;
        }
        proof {
            let k = choose|k: int| 0 <= k < self.flow().len() && #[trigger] self.flow()[k].0 == id;
            assert(self.flow()[k].0 != id);
        }
        0
    }

    /// Looks along the path for `looking_for` (the path's own end excluded). Where it is found, the
    /// path from there to the end, closed by `looking_for`, is a cycle; this returns the identifier
    /// of highest priority on that cycle (the one nearest the end among equals) and the identifier
    /// after it on the path (`None` where it is the path's end).
    pub fn find_max_priority_in_cycle(
        priority_mapping: &Vec<Entry>,
        current_path: &Option<Rc<Node>>,
        looking_for: &u64,
    ) -> (res: Option<(u64, Option<u64>)>)
        requires
            ids_distinct(priority_mapping@),
            current_path is Some ==> keyed_to(priority_mapping@, current_path.unwrap().path(), *looking_for),
        ensures
            current_path is None ==> res is None,
            current_path is Some ==> {
                let p = current_path.unwrap().path();
                &&& (res is None <==> !p.drop_last().contains(*looking_for))
                &&& (res is Some ==> cut_choice(priority_mapping@, p, *looking_for, res.unwrap().0, res.unwrap().1))
            },
    {
        if current_path.is_none() {
            return None;
        }
        let path_end = current_path.as_ref().unwrap();
        let ghost p = path_end.path();
        let ghost n = p.len() as int;
        proof {
            (**path_end).lemma_path_nonempty();
            reveal(keyed_to);
        }

        let mut child_of_max: Option<u64> = None;
        let mut max: &Node = path_end;
        let mut current: &Node = path_end;
        let ghost mut pos: int = n - 1;
        let ghost mut max_pos: int = n - 1;
        proof {
            assert(has_id(priority_mapping@, p[n - 1]));
        }

        while current.parent.is_some()
            invariant
                current_path is Some,
                p == current_path.unwrap().path(),
                ids_distinct(priority_mapping@),
                keyed_to(priority_mapping@, p, *looking_for),
                n == p.len(),
                0 <= pos < n,
                has_id(priority_mapping@, p[max_pos]),
                current.path() == p.subrange(0, pos + 1),
                pos <= max_pos < n,
                max.id == p[max_pos],
                child_of_max == (if max_pos == n - 1 { None::<u64> } else { Some(p[max_pos + 1]) }),
                forall|i: int| pos <= i < n ==> prio(priority_mapping@, #[trigger] p[i]) <= prio(priority_mapping@, p[max_pos]),
                forall|i: int| max_pos < i < n ==> prio(priority_mapping@, #[trigger] p[i]) < prio(priority_mapping@, p[max_pos]),
                forall|i: int| pos <= i < n - 1 ==> #[trigger] p[i] != *looking_for,
            decreases pos,
        {
            let child_of_current: &Node = current;
            let ghost child_pos = pos;
            current = current.parent.as_ref().unwrap();
            proof {
                current.lemma_path_nonempty();
                pos = pos - 1;
                assert(child_of_current.path() == current.path().push(child_of_current.id));
                assert(child_of_current.path() == p.subrange(0, child_pos + 1));
                assert(current.path() =~= child_of_current.path().drop_last());
                assert(current.path() =~= p.subrange(0, pos + 1));
                assert(child_of_current.path().last() == child_of_current.id);
                assert(child_of_current.id == p[child_pos]);
                assert(current.id == p[pos]);
                assert(forall|t: int| pos < t < n - 1 ==> p[t] != *looking_for);
                reveal(keyed_to);
                assert(has_id(priority_mapping@, p[pos]));
            }
            let max_priority = priority_of(priority_mapping, max.id);
            let current_priority = priority_of(priority_mapping, current.id);
            if current_priority > max_priority {
                child_of_max = Some(child_of_current.id);
                max = current;
                proof { max_pos = pos; }
            }
            if current.id == *looking_for {
                proof {
                    assert(last_match(p, *looking_for, pos));
                    assert(cut_choice(priority_mapping@, p, *looking_for, max.id, child_of_max));
                }
                return Some((max.id, child_of_max));
            }
        }
        proof {
            assert(pos == 0);
            assert forall|i: int| 0 <= i < p.drop_last().len() implies p.drop_last()[i] != *looking_for by {
                assert(p[i] != *looking_for);
            }
        }
        None
    }

    /// Searches every path from `current_path` (from every entry without afters, where there is
    /// no path) through the entries that run after its end, recording each step in `seen_list`;
    /// where a step would return to an identifier above the end of the path, cuts the link of
    /// that cycle that leaves its identifier of highest priority (the latest among equals) and
    /// goes no further along it. Identifiers, priorities and the order of the entries stay; links
    /// are only removed; every next step is recorded. Where there is no path, or the path follows
    /// links, every link removed lies on a closed walk of the entries on which it leaves the
    /// identifier of highest priority. Where there is no path, or the path repeats an identifier
    /// only right after itself, what it leaves (entries and record) is that of `search_model`.
    pub fn construct_paths(nodes: &mut Vec<Entry>, current_path: Option<Rc<Node>>, seen_list: &mut HashSet<u64>)
        requires
            ids_distinct(old(nodes)@),
            current_path is Some ==> path_in(old(nodes)@, current_path.unwrap().path()),
        ensures
            same_entries(old(nodes)@, final(nodes)@),
            old(seen_list)@.subset_of(final(seen_list)@),
            current_path is None ==> forall|j: int|
                0 <= j < old(nodes)@.len() && (#[trigger] old(nodes)@[j]).after@.is_empty() ==> final(seen_list)@.contains(old(nodes)@[j].id),
            current_path is Some ==> forall|w: u64|
                #[trigger] edge(old(nodes)@, current_path.unwrap().id, w) ==> final(seen_list)@.contains(w),
            current_path is None || walk_in(old(nodes)@, current_path.unwrap().path()) ==> cuts_on_cycles(
                old(nodes)@,
                final(nodes)@,
                old(nodes)@,
            ),
            current_path is Some ==> cycles_broken_below(final(nodes)@, current_path.unwrap().path()),
            current_path is None ==> forall|j: int|
                0 <= j < old(nodes)@.len() && (#[trigger] old(nodes)@[j]).after@.is_empty() ==> cycles_broken_below(
                    final(nodes)@,
                    seq![old(nodes)@[j].id],
                ),
            current_path is None || repeats_adjacent(current_path.unwrap().path()) ==> (
                entries_model(final(nodes)@),
                final(seen_list)@,
            ) == search_model(entries_model(old(nodes)@), old(seen_list)@, path_or_empty(current_path), old(nodes)@.len()),
    {
        let ghost g0 = nodes@;
        proof {
            assert forall|i: int| 0 <= i < g0.len() implies (#[trigger] g0[i]).id == g0[i].id && g0[i].priority
                == g0[i].priority && g0[i].after@.subset_of(g0[i].after@) by {}
        }
        Self::prune_paths(nodes, current_path, seen_list, Ghost(g0));
    }

    #[verifier::rlimit(20)]
    #[verifier::spinoff_prover]
    fn prune_paths(nodes: &mut Vec<Entry>, current_path: Option<Rc<Node>>, seen_list: &mut HashSet<u64>, Ghost(orig): Ghost<Seq<Entry>>)
        requires
            ids_distinct(old(nodes)@),
            same_entries(orig, old(nodes)@),
            forall|u: u64, w: u64| #[trigger] edge(old(nodes)@, u, w) ==> edge(orig, u, w),
            current_path is Some ==> path_in(old(nodes)@, current_path.unwrap().path()),
        ensures
            same_entries(old(nodes)@, final(nodes)@),
            old(seen_list)@.subset_of(final(seen_list)@),
            current_path is None ==> forall|j: int|
                0 <= j < old(nodes)@.len() && (#[trigger] old(nodes)@[j]).after@.is_empty() ==> final(seen_list)@.contains(old(nodes)@[j].id),
            current_path is Some ==> forall|w: u64|
                #[trigger] edge(old(nodes)@, current_path.unwrap().id, w) ==> final(seen_list)@.contains(w),
            current_path is None || walk_in(orig, current_path.unwrap().path()) ==> cuts_on_cycles(old(nodes)@, final(nodes)@, orig),
            current_path is Some ==> cycles_broken_below(final(nodes)@, current_path.unwrap().path()),
            current_path is None ==> forall|j: int|
                0 <= j < old(nodes)@.len() && (#[trigger] old(nodes)@[j]).after@.is_empty() ==> cycles_broken_below(
                    final(nodes)@,
                    seq![old(nodes)@[j].id],
                ),
            current_path is None || repeats_adjacent(current_path.unwrap().path()) ==> (
                entries_model(final(nodes)@),
                final(seen_list)@,
            ) == search_model(entries_model(old(nodes)@), old(seen_list)@, path_or_empty(current_path), old(nodes)@.len()),
        decreases
            if current_path is Some {
                path_measure(old(nodes)@, current_path.unwrap().path())
            } else {
                2 * ids_of(old(nodes)@).len() + 2
            },
    {
        let ghost g0 = nodes@;
        let ghost p: Seq<u64> = if current_path is Some {
            current_path.unwrap().path()
        } else {
            Seq::empty()
        };
        let ghost walks = current_path is None || walk_in(orig, p);
        let ghost adj = current_path is None || repeats_adjacent(p);
        let ghost seen0 = seen_list@;
        proof {
            if current_path is Some {
                current_path.unwrap().lemma_path_nonempty();
            }
            lemma_same_entries_edges(g0, g0);
        }
        let leaves = next_steps(nodes, &current_path);
        proof {
            reveal(covers_prefix);
            assert(p == path_or_empty(current_path));
            assert(search_steps(entries_model(g0), seen0, p, leaves@, 0, g0.len()) == search_model(
                entries_model(g0),
                seen0,
                p,
                g0.len(),
            ));
        }
        let mut idx: usize = 0;
        while idx < leaves.len()
            invariant
                0 <= idx <= leaves.len(),
                forall|t: int| 0 <= t < leaves.len() ==> has_id(g0, #[trigger] leaves@[t]),
                current_path is Some ==> forall|t: int|
                    0 <= t < leaves.len() ==> edge(g0, p.last(), #[trigger] leaves@[t]),
                current_path is Some ==> forall|w: u64| #[trigger] edge(g0, p.last(), w) ==> leaves@.contains(w),
                current_path is None ==> forall|j: int|
                    0 <= j < g0.len() && (#[trigger] g0[j]).after@.is_empty() ==> leaves@.contains(g0[j].id),
                current_path is Some ==> p == current_path.unwrap().path() && p.len() >= 1
                    && current_path.unwrap().id == p.last() && path_in(g0, p),
                walks == (current_path is None || walk_in(orig, p)),
                ids_distinct(g0),
                same_entries(orig, g0),
                forall|u: u64, w: u64| #[trigger] edge(g0, u, w) ==> edge(orig, u, w),
                g0 == old(nodes)@,
                same_entries(g0, nodes@),
                old(seen_list)@.subset_of(seen_list@),
                forall|t: int| 0 <= t < idx ==> seen_list@.contains(#[trigger] leaves@[t]),
                walks ==> cuts_on_cycles(g0, nodes@, orig),
                current_path is Some ==> covers_prefix(nodes@, p, leaves@, idx as int),
                current_path is None ==> forall|t: int| 0 <= t < idx ==> cycles_broken_below(nodes@, seq![#[trigger] leaves@[t]]),
                adj == (current_path is None || repeats_adjacent(p)),
                current_path is None ==> p == Seq::<u64>::empty(),
                adj ==> search_steps(entries_model(nodes@), seen_list@, p, leaves@, idx as int, g0.len()) == search_model(
                    entries_model(g0),
                    seen0,
                    p,
                    g0.len(),
                ),
            decreases leaves.len() - idx,
        {
            let leaf = leaves[idx];
            let ghost g1 = nodes@;
            let ghost seen_top = seen_list@;
            proof {
                lemma_same_entries_edges(g0, g1);
                assert forall|i: int| 0 <= i < p.len() && current_path is Some implies has_id(g1, #[trigger] p[i]) by {
                    assert(has_id(g0, p[i]));
                }
            }
            seen_list.insert(leaf);
            proof {
                if current_path is Some {
                    assert(path_in(nodes@, current_path.unwrap().path())) by {
                        assert forall|i: int| 0 <= i < p.len() implies has_id(nodes@, #[trigger] p[i]) by {
                            assert(has_id(g0, p[i]));
                        }
                    }
                    lemma_path_keyed(nodes@, current_path.unwrap().path(), leaf);
                }
            }
            let found = Self::find_max_priority_in_cycle(nodes, &current_path, &leaf);
            if let Some((max, child_of_max)) = found {
                let ghost (k, j) = choose|k: int, j: int|
                    #![trigger last_match(p, leaf, k), p[j]]
                    last_match(p, leaf, k) && k <= j < p.len() && max == p[j] && child_of_max == (if j == p.len() - 1 {
                        None::<u64>
                    } else {
                        Some(p[j + 1])
                    }) && (forall|i: int| k <= i < p.len() ==> prio(g1, #[trigger] p[i]) <= prio(g1, p[j]))
                        && (forall|i: int| j < i < p.len() ==> prio(g1, #[trigger] p[i]) < prio(g1, p[j]));
                let target = match child_of_max {
                    Some(child) => child,
                    None => leaf,
                };
                proof {
                    assert(has_id(g1, target)) by {
                        if j < p.len() - 1 {
                            assert(has_id(g0, p[j + 1]));
                        }
                    }
                }
                remove_after(nodes, target, max);
                proof {
                    let g2 = nodes@;
                    lemma_same_entries_trans(g0, g1, g2);
                    lemma_same_entries_edges(g1, g2);
                    lemma_covered_by_cut(g2, p, leaf, k, j);
                    reveal(covers_prefix);
                    lemma_covers_extend(g1, g2, p, leaves@, idx as int);
                    if walks {
                        assert(edge(orig, p.last(), leaf));
                        lemma_cut_priorities(orig, g0, g1, p, k, j);
                        lemma_cut_on_walk(orig, p, leaf, k, j);
                        assert(cuts_on_cycles(g1, g2, orig));
                        lemma_cuts_trans(g0, g1, g2, orig);
                    }
                    if adj {
                        let m1 = entries_model(g1);
                        lemma_cut_choice_model(g1, p, leaf, max, child_of_max);
                        let (mx, c) = choose|mx: u64, c: Option<u64>| model_cut_choice(m1, p, leaf, mx, c);
                        lemma_model_cut_unique(m1, p, leaf, mx, c, max, child_of_max);
                        assert(cut_model(m1, p, leaf) == entries_model(g2));
                        lemma_steps_cut(m1, seen_top, p, leaves@, idx as int, g0.len());
                    }
                }
            } else {
                let new_current_path = match &current_path {
                    Some(path_end) => Node { parent: Some(Rc::clone(path_end)), id: leaf },
                    None => Node { parent: None, id: leaf },
                };
                let ghost p2 = new_current_path.path();
                proof {
                    if current_path is Some {
                        assert(p2 == p.push(leaf));
                    } else {
                        assert(p2 =~= seq![leaf]);
                    }
                    lemma_prune_step(orig, g0, g1, p, leaf, p2, current_path is Some, walks);
                    if adj {
                        if current_path is Some {
                            lemma_adjacent_push(p, leaf);
                        }
                        assert(repeats_adjacent(p2));
                        lemma_path_bound(g1, p2);
                        assert(p.push(leaf) =~= p2);
                    }
                }
                Self::prune_paths(nodes, Some(Rc::new(new_current_path)), seen_list, Ghost(orig));
                proof {
                    let g2 = nodes@;
                    lemma_same_entries_trans(g0, g1, g2);
                    lemma_same_entries_edges(g1, g2);
                    if walks {
                        lemma_cuts_trans(g0, g1, g2, orig);
                    }
                    if adj {
                        lemma_steps_descend(entries_model(g1), seen_top, p, leaves@, idx as int, g0.len());
                    }
                    if current_path is Some {
                        lemma_covered_by_descent(g2, p, leaf);
                        reveal(covers_prefix);
                        lemma_covers_extend(g1, g2, p, leaves@, idx as int);
                    } else {
                        assert forall|t: int| 0 <= t < idx + 1 implies cycles_broken_below(g2, seq![#[trigger] leaves@[t]]) by {
                            if t < idx {
                                lemma_broken_mono(g1, g2, seq![leaves@[t]]);
                            } else {
                                assert(p2 =~= seq![leaf]);
                            }
                        }
                    }
                }
            }
            proof {
                assert forall|t: int| 0 <= t < idx + 1 implies seen_list@.contains(#[trigger] leaves@[t]) by {
                    assert(seen_top.contains(leaves@[t]) || leaves@[t] == leaf);
                }
            }
            idx += 1;
        }
        proof {
            lemma_same_entries_edges(g0, nodes@);
            if current_path is Some {
                reveal(covers_prefix);
                lemma_broken_from_covered(g0, nodes@, p, leaves@);
                assert forall|w: u64| #[trigger] edge(g0, current_path.unwrap().id, w) implies seen_list@.contains(w) by {
                    assert(leaves@.contains(w));
                    let t = choose|t: int| 0 <= t < leaves@.len() && leaves@[t] == w;
                }
            } else {
                assert forall|j: int| 0 <= j < g0.len() && (#[trigger] g0[j]).after@.is_empty() implies seen_list@.contains(g0[j].id)
                    && cycles_broken_below(nodes@, seq![g0[j].id]) by {
                    let t = choose|t: int| 0 <= t < leaves@.len() && leaves@[t] == g0[j].id;
                }
            }
        }
    }

    /// Searches every path from `current_path` (from every entry without afters, where there is
    /// no path) through the entries that run after its end, and where a step would return to an
    /// identifier above the end of the path, cuts the link of that cycle that leaves its
    /// identifier of highest priority. Returns the record of the search.
    #[verifier::rlimit(40)]
    #[verifier::spinoff_prover]
    fn search_paths(
        nodes: &mut Vec<Entry>,
        current_path: Option<Rc<Node>>,
        seen_list: &mut HashSet<u64>,
        Ghost(orig): Ghost<Seq<Entry>>,
        Ghost(order): Ghost<Seq<u64>>,
        Ghost(first): Ghost<Map<u64, Seq<u64>>>,
        Ghost(pending): Ghost<Set<u64>>,
    ) -> (log: Ghost<(Seq<u64>, Map<u64, Seq<u64>>)>)
        requires
            ids_distinct(old(nodes)@),
            same_entries(orig, old(nodes)@),
            forall|u: u64, w: u64| #[trigger] edge(old(nodes)@, u, w) ==> edge(orig, u, w),
            current_path is Some ==> {
                let p = current_path.unwrap().path();
                &&& path_in(old(nodes)@, p)
                &&& repeats_adjacent(p)
                &&& walk_in(orig, p)
                &&& forall|i: int| 0 <= i < p.len() ==> order.contains(#[trigger] p[i])
            },
            search_log(old(nodes)@, order, first, pending),
            old(seen_list)@ == order.to_set(),
            forall|x: u64| #[trigger] order.contains(x) ==> has_id(old(nodes)@, x),
        ensures
            forall|x: u64| #[trigger] log@.0.contains(x) ==> has_id(final(nodes)@, x),
            same_entries(old(nodes)@, final(nodes)@),
            current_path is Some ==> cycles_broken_below(final(nodes)@, current_path.unwrap().path()),
            search_log(final(nodes)@, log@.0, log@.1, pending),
            order.is_prefix_of(log@.0),
            forall|v: u64| #[trigger] first.dom().contains(v) ==> log@.1.dom().contains(v) && log@.1[v] == first[v],
            final(seen_list)@ == log@.0.to_set(),
            cuts_on_cycles(old(nodes)@, final(nodes)@, orig),
            current_path is None ==> forall|j: int|
                0 <= j < old(nodes)@.len() && (#[trigger] old(nodes)@[j]).after@.is_empty() ==> log@.0.contains(old(nodes)@[j].id)
                    && cycles_broken_below(final(nodes)@, seq![old(nodes)@[j].id]),
            (entries_model(final(nodes)@), final(seen_list)@) == search_model(
                entries_model(old(nodes)@),
                old(seen_list)@,
                path_or_empty(current_path),
                old(nodes)@.len(),
            ),
        decreases
            if current_path is Some {
                2 * old(nodes)@.len() - current_path.unwrap().path().len()
            } else {
                2 * old(nodes)@.len() + 1int
            },
    {
        let ghost g0 = nodes@;
        let ghost seen0 = seen_list@;
        let ghost order0 = order;
        let ghost first0 = first;
        let ghost mut order = order;
        let ghost mut first = first;
        let ghost p: Seq<u64> = if current_path is Some {
            current_path.unwrap().path()
        } else {
            Seq::empty()
        };
        proof {
            if current_path is Some {
                current_path.unwrap().lemma_path_nonempty();
                lemma_path_bound(g0, p);
            }
        }
        let leaves = next_steps(nodes, &current_path);
        proof {
            reveal(covers_prefix);
            assert(p == path_or_empty(current_path));
            assert(search_steps(entries_model(g0), seen0, p, leaves@, 0, g0.len()) == search_model(
                entries_model(g0),
                seen0,
                p,
                g0.len(),
            ));
        }

        let mut idx: usize = 0;
        while idx < leaves.len()
            invariant
                0 <= idx <= leaves.len(),
                forall|t: int| 0 <= t < leaves.len() ==> has_id(g0, #[trigger] leaves@[t]),
                current_path is Some ==> forall|t: int|
                    0 <= t < leaves.len() ==> edge(g0, p.last(), #[trigger] leaves@[t]),
                current_path is Some ==> forall|w: u64| #[trigger] edge(g0, p.last(), w) ==> leaves@.contains(w),
                current_path is Some ==> p == current_path.unwrap().path() && p.len() >= 1
                    && current_path.unwrap().id == p.last(),
                current_path is Some ==> {
                    &&& path_in(g0, p)
                    &&& repeats_adjacent(p)
                    &&& walk_in(orig, p)
                    &&& p.len() <= 2 * g0.len()
                    &&& forall|i: int| 0 <= i < p.len() ==> order0.contains(#[trigger] p[i])
                },
                ids_distinct(g0),
                same_entries(orig, g0),
                g0 == old(nodes)@,
                forall|u: u64, w: u64| #[trigger] edge(g0, u, w) ==> edge(orig, u, w),
                same_entries(g0, nodes@),
                search_log(nodes@, order, first, pending),
                order0.is_prefix_of(order),
                forall|v: u64| #[trigger] first0.dom().contains(v) ==> first.dom().contains(v) && first[v] == first0[v],
                seen_list@ == order.to_set(),
                forall|x: u64| #[trigger] order.contains(x) ==> has_id(g0, x),
                cuts_on_cycles(g0, nodes@, orig),
                current_path is Some ==> covers_prefix(nodes@, p, leaves@, idx as int),
                current_path is None ==> p == Seq::<u64>::empty(),
                current_path is None ==> forall|t: int|
                    0 <= t < idx ==> seen_list@.contains(#[trigger] leaves@[t]) && cycles_broken_below(nodes@, seq![leaves@[t]]),
                search_steps(entries_model(nodes@), seen_list@, p, leaves@, idx as int, g0.len()) == search_model(
                    entries_model(g0),
                    seen0,
                    p,
                    g0.len(),
                ),
            decreases leaves.len() - idx,
        {
            let leaf = leaves[idx];
            let ghost g1 = nodes@;
            let ghost order_top = order;
            let ghost seen_b = seen_list@;
            proof {
                lemma_same_entries_edges(g0, g1);
            }
            let fresh = seen_list.insert(leaf);
            proof {
                if current_path is Some {
                    assert(path_in(nodes@, current_path.unwrap().path())) by {
                        assert forall|i: int| 0 <= i < p.len() implies has_id(nodes@, #[trigger] p[i]) by {
                            assert(has_id(g0, p[i]));
                        }
                    }
                    lemma_path_keyed(nodes@, current_path.unwrap().path(), leaf);
                }
            }
            let found = Self::find_max_priority_in_cycle(nodes, &current_path, &leaf);
            if let Some((max, child_of_max)) = found {
                let ghost (k, j) = choose|k: int, j: int|
                    #![trigger last_match(p, leaf, k), p[j]]
                    last_match(p, leaf, k) && k <= j < p.len() && max == p[j] && child_of_max == (if j == p.len() - 1 {
                        None::<u64>
                    } else {
                        Some(p[j + 1])
                    }) && (forall|i: int| k <= i < p.len() ==> prio(g1, #[trigger] p[i]) <= prio(g1, p[j]))
                        && (forall|i: int| j < i < p.len() ==> prio(g1, #[trigger] p[i]) < prio(g1, p[j]));
                let target = match child_of_max {
                    Some(child) => child,
                    None => leaf,
                };
                proof {
                    assert(p.drop_last()[k] == leaf);
                    assert(order.contains(leaf)) by {
                        assert(order0.contains(p[k]));
                        let t = choose|t: int| 0 <= t < order0.len() && order0[t] == p[k];
                        assert(order[t] == order0[t]);
                    }
                    assert(has_id(g1, target)) by {
                        if j < p.len() - 1 {
                            assert(has_id(g0, p[j + 1]));
                        }
                    }
                }
                remove_after(nodes, target, max);
                proof {
                    let g2 = nodes@;
                    lemma_same_entries_trans(g0, g1, g2);
                    lemma_same_entries_edges(g1, g2);
                    lemma_covered_by_cut(g2, p, leaf, k, j);
                    lemma_log_mono(g1, g2, order, first, pending);
                    lemma_covers_extend(g1, g2, p, leaves@, idx as int);
                    assert(edge(orig, p.last(), leaf));
                    lemma_cut_priorities(orig, g0, g1, p, k, j);
                    lemma_cut_on_walk(orig, p, leaf, k, j);
                    assert(cuts_on_cycles(g1, g2, orig));
                    lemma_cuts_trans(g0, g1, g2, orig);
                    assert(order.to_set().contains(leaf));
                    assert(seen_list@ =~= order.to_set());
                    let m1 = entries_model(g1);
                    lemma_cut_choice_model(g1, p, leaf, max, child_of_max);
                    let (mx, c) = choose|mx: u64, c: Option<u64>| model_cut_choice(m1, p, leaf, mx, c);
                    lemma_model_cut_unique(m1, p, leaf, mx, c, max, child_of_max);
                    assert(cut_model(m1, p, leaf) == entries_model(g2));
                    lemma_steps_cut(m1, seen_b, p, leaves@, idx as int, g0.len());
                }
            } else {
                let new_current_path = match &current_path {
                    Some(path_end) => Node { parent: Some(Rc::clone(path_end)), id: leaf },
                    None => Node { parent: None, id: leaf },
                };
                let ghost p2 = new_current_path.path();
                let ghost pending2 = if fresh { pending.insert(leaf) } else { pending };
                proof {
                    if current_path is Some {
                        assert(p2 == p.push(leaf));
                    } else {
                        assert(p2 =~= seq![leaf]);
                    }
                    if fresh {
                        assert(!order.contains(leaf));
                        lemma_log_dom(g1, order, first, pending);
                        assert(!first.dom().contains(leaf));
                        assert forall|jj: int| 0 <= jj < p2.len() - 1 implies order.contains(#[trigger] p2[jj]) by {
                            assert(p2[jj] == p[jj]);
                            lemma_prefix_contains(order0, order, p[jj]);
                        }
                        lemma_log_extend(g1, order, first, pending, leaf, p2);
                        assert(order.push(leaf) =~= order + seq![leaf]);
                        Seq::lemma_to_set_insert_commutes(order, leaf);
                        order = order.push(leaf);
                        first = first.insert(leaf, p2);
                    } else {
                        assert(order.to_set().contains(leaf));
                    }
                    assert(seen_list@ =~= order.to_set());
                    lemma_same_entries_edges(g0, g1);
                    assert forall|x: u64| #[trigger] order.contains(x) implies has_id(g1, x) by {
                        if x != leaf {
                            let t = choose|t: int| 0 <= t < order.len() && order[t] == x;
                            if fresh {
                                assert(order == order_top.push(leaf));
                                assert(order_top[t] == x);
                            }
                            assert(order_top.contains(x));
                            assert(has_id(g0, x));
                        }
                    }
                    lemma_step_path(g0, g1, orig, p, leaf, p2, current_path is Some);
                    assert forall|i: int| 0 <= i < p2.len() implies order.contains(#[trigger] p2[i]) by {
                        if i < p2.len() - 1 {
                            assert(p2[i] == p[i]);
                            lemma_prefix_contains(order0, order, p[i]);
                        } else {
                            assert(seen_list@.contains(leaf));
                        }
                    }
                    lemma_path_bound(g1, p2);
                    assert(g1.len() == g0.len());
                    assert(p2.len() <= 2 * g1.len());
                    if current_path is Some {
                        assert(p2.len() == p.len() + 1);
                    }
                }
                let ghost seen_mid = seen_list@;
                let Ghost(res) = Self::search_paths(
                    nodes,
                    Some(Rc::new(new_current_path)),
                    seen_list,
                    Ghost(orig),
                    Ghost(order),
                    Ghost(first),
                    Ghost(pending2),
                );
                proof {
                    let g2 = nodes@;
                    let order_before = order;
                    let first_before = first;
                    order = res.0;
                    first = res.1;
                    lemma_same_entries_trans(g0, g1, g2);
                    lemma_same_entries_edges(g1, g2);
                    if fresh {
                        assert(first_before.dom().contains(leaf));
                        assert(first_before[leaf] == p2);
                        assert(first.dom().contains(leaf));
                        assert(first[leaf] == p2);
                        lemma_log_settle(g2, order, first, pending, leaf);
                    }
                    if current_path is Some {
                        assert(p2 == p.push(leaf));
                        lemma_covered_by_descent(g2, p, leaf);
                        lemma_covers_extend(g1, g2, p, leaves@, idx as int);
                    }
                    assert(order0.is_prefix_of(order)) by {
                        assert(order_before.is_prefix_of(order));
                        assert forall|i: int| 0 <= i < order0.len() implies order[i] == order0[i] by {
                            assert(order_before[i] == order0[i]);
                            assert(order[i] == order_before[i]);
                        }
                    }
                    assert forall|v: u64| #[trigger] first0.dom().contains(v) implies first.dom().contains(v) && first[v] == first0[v] by {
                        assert(first_before.dom().contains(v));
                        assert(first_before[v] == first0[v]);
                    }
                    lemma_cuts_trans(g0, g1, g2, orig);
                    assert(p.push(leaf) =~= p2);
                    lemma_steps_descend(entries_model(g1), seen_b, p, leaves@, idx as int, g0.len());
                    if current_path is None {
                        assert(p2 =~= seq![leaf]);
                        assert forall|t: int| 0 <= t < idx + 1 implies seen_list@.contains(#[trigger] leaves@[t])
                            && cycles_broken_below(g2, seq![leaves@[t]]) by {
                            if t < idx {
                                lemma_broken_mono(g1, g2, seq![leaves@[t]]);
                            }
                            assert(seen_mid.contains(leaves@[t]));
                            assert(order_before.to_set().contains(leaves@[t]));
                            lemma_prefix_contains(order_before, order, leaves@[t]);
                        }
                    }
                }
            }
            idx += 1;
        }
        proof {
            if current_path is Some {
                reveal(covers_prefix);
                lemma_broken_from_covered(g0, nodes@, p, leaves@);
            }
            lemma_same_entries_edges(g0, nodes@);
            if current_path is None {
                assert forall|j: int|
                    0 <= j < g0.len() && (#[trigger] g0[j]).after@.is_empty() implies order.contains(g0[j].id)
                        && cycles_broken_below(nodes@, seq![g0[j].id]) by {
                    let t = choose|t: int| 0 <= t < leaves@.len() && leaves@[t] == g0[j].id;
                    assert(seen_list@.contains(leaves@[t]));
                    assert(order.to_set().contains(g0[j].id));
                }
            }
        }
        Ghost((order, first))
    }

    /// Cuts links until no cycle is left: first searches from the entries without afters, then,
    /// while some entry has not been reached, from the unreached entry of highest priority (the
    /// last one among equals). The entries left are those of `broken_model`.
    #[verifier::spinoff_prover]
    pub fn break_cycles(nodes: &mut Vec<Entry>, node_list: &HashSet<u64>)
        requires
            ids_distinct(old(nodes)@),
            forall|id: u64| #[trigger] node_list@.contains(id) <==> has_id(old(nodes)@, id),
        ensures
            same_entries(old(nodes)@, final(nodes)@),
            acyclic(final(nodes)@),
            cuts_on_cycles(old(nodes)@, final(nodes)@, old(nodes)@),
            entries_model(final(nodes)@) == broken_model(entries_model(old(nodes)@)),
    {
        let ghost orig = nodes@;
        let mut seen: HashSet<u64> = HashSet::new();
        proof {
            reveal(search_log);
            assert(seen@ =~= Seq::<u64>::empty().to_set());
            assert(same_entries(orig, orig));
        }
        let Ghost(log) = Self::search_paths(
            nodes,
            None,
            &mut seen,
            Ghost(orig),
            Ghost(Seq::empty()),
            Ghost(Map::empty()),
            Ghost(Set::empty()),
        );
        let ghost mut order = log.0;
        let ghost mut first = log.1;
        let ghost mut fuel: nat = orig.len();
        proof {
            assert(cuts_on_cycles(orig, nodes@, orig));
            lemma_ids_set_finite(orig, node_list@);
        }

        while seen.len() != node_list.len()
            invariant
                ids_distinct(orig),
                forall|id: u64| #[trigger] node_list@.contains(id) <==> has_id(orig, id),
                node_list@.finite(),
                same_entries(orig, nodes@),
                search_log(nodes@, order, first, Set::empty()),
                seen@ == order.to_set(),
                forall|x: u64| #[trigger] order.contains(x) ==> has_id(nodes@, x),
                cuts_on_cycles(orig, nodes@, orig),
                restart_model(entries_model(nodes@), seen@, fuel, orig.len()) == broken_model(entries_model(orig)),
                fuel + seen@.len() >= node_list@.len(),
            decreases node_list@.len() - seen@.len(),
        {
            let ghost g1 = nodes@;
            proof {
                lemma_same_entries_edges(orig, g1);
                lemma_seen_within(order, seen@, node_list@, orig, g1);
            }
            let best = highest_unreached(nodes, &seen);
            match best {
                Some(b) => {
                    let id = nodes[b].id;
                    let current_path = Node { parent: None, id };
                    let ghost seen_before = seen@;
                    proof {
                        vstd::set_lib::lemma_len_subset(seen_before, node_list@);
                        lemma_restart_step(entries_model(g1), seen_before, fuel, orig.len(), b as int);
                    }
                    seen.insert(id);
                    proof {
                        assert(has_id(g1, id));
                        assert(current_path.path() =~= seq![id]);
                        lemma_start_root(orig, g1, order, first, seen_before, id);
                        order = order.push(id);
                        first = first.insert(id, seq![id]);
                    }
                    let current_path = Rc::new(current_path);
                    let Ghost(res) = Self::search_paths(
                        nodes,
                        Some(Rc::clone(&current_path)),
                        &mut seen,
                        Ghost(orig),
                        Ghost(order),
                        Ghost(first),
                        Ghost(Set::empty().insert(id)),
                    );
                    proof {
                        let g2 = nodes@;
                        let first_before = first;
                        let order_before = order;
                        order = res.0;
                        first = res.1;
                        assert(first_before.dom().contains(id));
                        assert(first[id] == seq![id]);
                        lemma_log_settle(g2, order, first, Set::empty(), id);
                        lemma_same_entries_trans(orig, g1, g2);
                        lemma_cuts_trans(orig, g1, g2, orig);
                        lemma_same_entries_edges(orig, g2);
                        lemma_seen_within(order, seen@, node_list@, orig, g2);
                        assert(seen_before.insert(id).subset_of(seen@)) by {
                            assert forall|x: u64| seen_before.insert(id).contains(x) implies seen@.contains(x) by {
                                let ob = first_before.dom();
                                lemma_prefix_contains(order_before, order, x);
                            }
                        }
                        vstd::set_lib::lemma_len_subset(seen_before.insert(id), seen@);
                        assert(seen_before.finite());
                        assert(!seen_before.contains(id));
                        assert(seen_before.insert(id).len() == seen_before.len() + 1);
                        vstd::set_lib::lemma_len_subset(seen@, node_list@);
                        assert(current_path.path() =~= seq![id]);
                        fuel = (fuel - 1) as nat;
                    }
                },
                None => {
                    proof {
                        lemma_unreached_exists(order, seen@, node_list@, orig, g1);
                        let j = choose|j: int| 0 <= j < g1.len() && !seen@.contains(#[trigger] g1[j].id);
                        assert(seen@.contains(g1[j].id));
                    }
                },
            }
        }
        proof {
            let g = nodes@;
            lemma_same_entries_edges(orig, g);
            lemma_seen_within(order, seen@, node_list@, orig, g);
            lemma_subset_same_len(seen@, node_list@);
            assert forall|id: u64| has_id(g, id) implies order.contains(id) by {
                assert(node_list@.contains(id));
                assert(seen@.contains(id));
            }
            lemma_search_acyclic(g, order, first);
            let m = entries_model(g);
            assert forall|j: int| 0 <= j < m.len() implies seen@.contains(#[trigger] m[j].0) by {
                assert(has_id(g, g[j].id));
                assert(order.contains(g[j].id));
            }
            lemma_restart_done(m, seen@, fuel, orig.len());
        }
    }
}

/// Finishing a node keeps a graph well formed.
proof fn lemma_complete_step_wf(a: ExecutionGraph, b: ExecutionGraph, m: u64)
    requires
        a.wf(),
        ExecutionGraph::complete_step(a, b, m),
        a.has_node(m),
    ensures
        b.wf(),
{
    let d = a.deps();
    assert(b.deps() == d);
    assert forall|x: u64| b.has_node(x) <==> a.has_node(x) by {
        if b.has_node(x) {
            let j = choose|j: int| 0 <= j < b.flow().len() && #[trigger] b.flow()[j].0 == x;
            assert(a.flow()[j].0 == x);
        }
        if a.has_node(x) {
            let j = choose|j: int| 0 <= j < a.flow().len() && #[trigger] a.flow()[j].0 == x;
            assert(b.flow()[j].0 == x);
        }
    }
    assert forall|x: u64| b.done(x) <==> a.done(x) || x == m by {
        if b.done(x) {
            let j = choose|j: int| 0 <= j < b.flow().len() && #[trigger] b.flow()[j].0 == x && b.flow()[j].1.1 == ExecutionGraph::FINISHED;
            assert(a.flow()[j].0 == x);
        }
        if a.done(x) {
            let j = choose|j: int| 0 <= j < a.flow().len() && #[trigger] a.flow()[j].0 == x && a.flow()[j].1.1 == ExecutionGraph::FINISHED;
            assert(b.flow()[j].0 == x);
        }
        if x == m {
            let j = choose|j: int| 0 <= j < a.flow().len() && #[trigger] a.flow()[j].0 == m;
            assert(b.flow()[j].0 == m);
        }
    }
    assert forall|i: int, j: int| 0 <= i < d.len() && 0 <= j < d.len() && i != j implies #[trigger] b.flow()[i].0 != #[trigger] b.flow()[j].0 by {
        assert(a.flow()[i].0 != a.flow()[j].0);
    }
    assert forall|t: int| 0 <= t < b.flow().len() implies (#[trigger] b.flow()[t]).1.0 == b.unfinished_deps(t).len() by {
        let o = a.flow()[t];
        assert(o.1.0 == a.unfinished_deps(t).len());
        if !a.done(m) && d[t].1.contains(m) {
            assert(b.unfinished_deps(t) =~= a.unfinished_deps(t).remove(m));
            assert(a.unfinished_deps(t).contains(m));
            assert(d[t].1.finite());
            assert(a.unfinished_deps(t).finite());
        } else {
            assert(b.unfinished_deps(t) =~= a.unfinished_deps(t));
        }
    }
    assert forall|t: int| 0 <= t < b.flow().len() implies (#[trigger] b.flow()[t]).1.1 <= ExecutionGraph::FINISHED by {
        assert(a.flow()[t].1.1 <= ExecutionGraph::FINISHED);
    }
    assert forall|i: int| 0 <= i < d.len() implies (#[trigger] b.flow()[i]).0 == d[i].0 by {
        assert(a.flow()[i].0 == d[i].0);
    }
}

/// Handing out a node keeps a graph well formed.
proof fn lemma_pending_wf(a: ExecutionGraph, b: ExecutionGraph, i: int)
    requires
        a.wf(),
        0 <= i < a.flow().len(),
        a.flow()[i].1.1 == ExecutionGraph::INIT,
        b.deps() == a.deps(),
        b.flow() == a.flow().update(i, (a.flow()[i].0, (a.flow()[i].1.0, ExecutionGraph::PENDING))),
    ensures
        b.wf(),
{
    let d = a.deps();
    assert forall|x: u64| b.has_node(x) <==> a.has_node(x) by {
        if b.has_node(x) {
            let j = choose|j: int| 0 <= j < b.flow().len() && #[trigger] b.flow()[j].0 == x;
            assert(a.flow()[j].0 == x);
        }
        if a.has_node(x) {
            let j = choose|j: int| 0 <= j < a.flow().len() && #[trigger] a.flow()[j].0 == x;
            assert(b.flow()[j].0 == x);
        }
    }
    assert forall|x: u64| b.done(x) <==> a.done(x) by {
        if b.done(x) {
            let j = choose|j: int| 0 <= j < b.flow().len() && #[trigger] b.flow()[j].0 == x && b.flow()[j].1.1 == ExecutionGraph::FINISHED;
            assert(a.flow()[j].0 == x);
        }
        if a.done(x) {
            let j = choose|j: int| 0 <= j < a.flow().len() && #[trigger] a.flow()[j].0 == x && a.flow()[j].1.1 == ExecutionGraph::FINISHED;
            assert(b.flow()[j].0 == x);
        }
    }
    assert forall|t: int| 0 <= t < b.flow().len() implies (#[trigger] b.flow()[t]).1.0 == b.unfinished_deps(t).len() by {
        assert(b.unfinished_deps(t) =~= a.unfinished_deps(t));
        assert(a.flow()[t].1.0 == a.unfinished_deps(t).len());
    }
    assert forall|i1: int, j1: int| 0 <= i1 < d.len() && 0 <= j1 < d.len() && i1 != j1 implies #[trigger] b.flow()[i1].0 != #[trigger] b.flow()[j1].0 by {
        assert(a.flow()[i1].0 != a.flow()[j1].0);
    }
    assert forall|t: int| 0 <= t < b.flow().len() implies (#[trigger] b.flow()[t]).1.1 <= ExecutionGraph::FINISHED by {
        assert(a.flow()[t].1.1 <= ExecutionGraph::FINISHED);
    }
    assert forall|t: int| 0 <= t < d.len() implies (#[trigger] b.flow()[t]).0 == d[t].0 by {
        assert(a.flow()[t].0 == d[t].0);
    }
}

/// The graph built from entries whose cycles were broken is well formed.
proof fn lemma_built_wf(g: ExecutionGraph, e0: Seq<Entry>, e1: Seq<Entry>, ids: Set<u64>)
    requires
        g.deps() == deps_of(e1),
        g.flow().len() == e1.len(),
        forall|i: int| 0 <= i < e1.len() ==> (#[trigger] g.flow()[i]).0 == e1[i].id && g.flow()[i].1.0 == e1[i].after@.len()
            && g.flow()[i].1.1 == ExecutionGraph::INIT,
        ids_distinct(e0),
        same_entries(e0, e1),
        acyclic(e1),
        forall|j: int| 0 <= j < e0.len() ==> (#[trigger] e0[j]).after@.finite(),
        forall|j: int, a: u64| 0 <= j < e0.len() && #[trigger] e0[j].after@.contains(a) ==> ids.contains(a),
        forall|id: u64| #[trigger] ids.contains(id) <==> has_id(e0, id),
    ensures
        g.wf(),
{
    let d = g.deps();
    let f = g.flow();
    lemma_deps_bridge(e1, d);
    assert forall|x: u64| !#[trigger] g.done(x) by {
        if g.done(x) {
            let j = choose|j: int| 0 <= j < f.len() && #[trigger] f[j].0 == x && f[j].1.1 == ExecutionGraph::FINISHED;
        }
    }
    assert forall|i: int| 0 <= i < d.len() implies (#[trigger] f[i]).0 == d[i].0 by {}
    assert forall|i: int, j: int| 0 <= i < d.len() && 0 <= j < d.len() && i != j implies #[trigger] f[i].0 != #[trigger] f[j].0 by {
        assert(e0[i].id == e1[i].id && e0[j].id == e1[j].id);
    }
    assert forall|i: int| 0 <= i < d.len() implies (#[trigger] d[i]).1.finite() by {
        vstd::set_lib::lemma_set_subset_finite(e0[i].after@, e1[i].after@);
    }
    assert forall|i: int, a: u64| 0 <= i < d.len() && #[trigger] d[i].1.contains(a) implies g.has_node(a) by {
        assert(e0[i].after@.contains(a));
        assert(ids.contains(a));
        let k = choose|k: int| 0 <= k < e0.len() && #[trigger] e0[k].id == a;
        assert(f[k].0 == e1[k].id);
    }
    assert forall|i: int| 0 <= i < f.len() implies (#[trigger] f[i]).1.0 == g.unfinished_deps(i).len() by {
        assert(g.unfinished_deps(i) =~= d[i].1);
    }
}

/// The node can run now: it has not finished and has no dependency left to finish.
pub open spec fn is_leaf_at(g: ExecutionGraph, i: int) -> bool {
    g.flow()[i].1.1 != ExecutionGraph::FINISHED && g.flow()[i].1.0 == 0
}

/// `x` is the identifier and state of a node among the first `n` that can run now.
pub open spec fn is_listed_leaf(g: ExecutionGraph, n: int, x: (u64, u8)) -> bool {
    exists|i: int| 0 <= i < n && #[trigger] is_leaf_at(g, i) && x == (g.flow()[i].0, g.flow()[i].1.1)
}

/// `leaves` lists exactly the nodes that can run now, each with its state.
pub proof fn lemma_leaves_upto(g: ExecutionGraph, n: int)
    requires
        0 <= n <= g.flow().len(),
    ensures
        forall|i: int|
            0 <= i < n && #[trigger] is_leaf_at(g, i) ==> g.leaves_upto(n).contains((g.flow()[i].0, g.flow()[i].1.1)),
        forall|t: int| 0 <= t < g.leaves_upto(n).len() ==> is_listed_leaf(g, n, #[trigger] g.leaves_upto(n)[t]),
    decreases n,
{
    if n > 0 {
        lemma_leaves_upto(g, n - 1);
        let before = g.leaves_upto(n - 1);
        let now = g.leaves_upto(n);
        assert forall|i: int| 0 <= i < n && #[trigger] is_leaf_at(g, i) implies now.contains((g.flow()[i].0, g.flow()[i].1.1)) by {
            if i < n - 1 {
                let t = choose|t: int| 0 <= t < before.len() && before[t] == (g.flow()[i].0, g.flow()[i].1.1);
                assert(now[t] == before[t]);
            } else {
                assert(now[now.len() - 1] == (g.flow()[i].0, g.flow()[i].1.1));
            }
        }
        assert forall|t: int| 0 <= t < now.len() implies is_listed_leaf(g, n, #[trigger] now[t]) by {
            if t < before.len() {
                assert(now[t] == before[t]);
                assert(is_listed_leaf(g, n - 1, before[t]));
                let i = choose|i: int| 0 <= i < n - 1 && #[trigger] is_leaf_at(g, i) && before[t] == (g.flow()[i].0, g.flow()[i].1.1);
                assert(is_leaf_at(g, i));
            } else {
                assert(is_leaf_at(g, n - 1));
            }
        }
    } else {
        assert(g.leaves_upto(n).len() == 0);
    }
}

/// The node `w` waits for some node that has not finished.
spec fn waits(g: ExecutionGraph, w: u64) -> bool {
    exists|a: u64| g.unfinished().contains(a) && depends(g.deps(), a, w)
}

/// Walking back from `start` through dependencies that have not finished.
spec fn back_walk(g: ExecutionGraph, start: u64, t: nat) -> u64
    decreases t,
{
    if t == 0 {
        start
    } else {
        let next = back_walk(g, start, (t - 1) as nat);
        choose|a: u64| g.unfinished().contains(a) && depends(g.deps(), a, next)
    }
}

proof fn lemma_back_walk(g: ExecutionGraph, start: u64, t: nat)
    requires
        g.unfinished().contains(start),
        forall|w: u64| g.unfinished().contains(w) ==> #[trigger] waits(g, w),
    ensures
        g.unfinished().contains(back_walk(g, start, t)),
        t >= 1 ==> depends(g.deps(), back_walk(g, start, t), back_walk(g, start, (t - 1) as nat)),
    decreases t,
{
    if t > 0 {
        lemma_back_walk(g, start, (t - 1) as nat);
        let next = back_walk(g, start, (t - 1) as nat);
        assert(g.unfinished().contains(next));
        assert(waits(g, next));
    }
}

/// Where no node can run, every node not finished waits for another one not finished.
proof fn lemma_blocked(g: ExecutionGraph)
    requires
        g.wf(),
        !exists|i: int| 0 <= i < g.flow().len() && #[trigger] is_leaf_at(g, i),
    ensures
        forall|w: u64| g.unfinished().contains(w) ==> #[trigger] waits(g, w),
{
    let d = g.deps();
    let f = g.flow();
    let n = f.len() as int;
    assert forall|w: u64| g.unfinished().contains(w) implies #[trigger] waits(g, w) by {
        let i = choose|i: int| 0 <= i < n && #[trigger] f[i].0 == w;
        assert(!g.done(w));
        assert(f[i].1.1 != ExecutionGraph::FINISHED) by {
            if f[i].1.1 == ExecutionGraph::FINISHED {
                assert(g.done(w));
            }
        }
        assert(!is_leaf_at(g, i));
        assert(g.unfinished_deps(i).len() != 0);
        assert(d[i].1.finite());
        let a = g.unfinished_deps(i).choose();
        assert(g.unfinished_deps(i).contains(a)) by {
            vstd::set_lib::lemma_set_empty_equivalency_len(g.unfinished_deps(i));
        }
        assert(d[i].1.contains(a));
        assert(g.has_node(a));
        assert(g.unfinished().contains(a));
        assert(depends(d, a, w));
    }
}

/// A walk back through unfinished nodes that is longer than the graph repeats a node.
proof fn lemma_walk_repeats(g: ExecutionGraph, b: Seq<u64>)
    requires
        b.len() > g.flow().len(),
        forall|t: int| 0 <= t < b.len() ==> g.unfinished().contains(#[trigger] b[t]),
    ensures
        exists|i: int, j: int| 0 <= i < j < b.len() && b[i] == b[j],
{
    let f = g.flow();
    let n = f.len() as int;
    let ids = f.map_values(|e: (u64, (usize, u8))| e.0);
    assert(b.to_set().subset_of(ids.to_set())) by {
        assert forall|x: u64| b.to_set().contains(x) implies ids.to_set().contains(x) by {
            let t = choose|t: int| 0 <= t < b.len() && b[t] == x;
            assert(g.unfinished().contains(b[t]));
            let j = choose|j: int| 0 <= j < n && #[trigger] f[j].0 == x;
            assert(ids[j] == x);
        }
    }
    ids.lemma_cardinality_of_set();
    vstd::set_lib::lemma_len_subset(b.to_set(), ids.to_set());
    if b.no_duplicates() {
        b.unique_seq_to_set();
    }
    let (i, j) = choose|i: int, j: int| 0 <= i < b.len() && 0 <= j < b.len() && i != j && b[i] == b[j];
    if j < i {
        assert(b[j] == b[i]);
    }
}

/// A repeat in a walk back through dependencies closes a walk.
proof fn lemma_repeat_closes(g: ExecutionGraph, start: u64, lo: int, hi: int)
    requires
        0 <= lo < hi,
        back_walk(g, start, lo as nat) == back_walk(g, start, hi as nat),
        g.unfinished().contains(start),
        forall|w: u64| g.unfinished().contains(w) ==> #[trigger] waits(g, w),
    ensures
        dep_closed_walk(g.deps(), Seq::new((hi - lo) as nat, |s: int| back_walk(g, start, (hi - s) as nat))),
{
    let d = g.deps();
    let len = hi - lo;
    let c = Seq::new(len as nat, |s: int| back_walk(g, start, (hi - s) as nat));
    assert forall|s: int| 0 <= s < c.len() implies depends(d, #[trigger] c[s], c[(s + 1) % (c.len() as int)]) by {
        lemma_back_walk(g, start, (hi - s) as nat);
        if s < len - 1 {
            vstd::arithmetic::div_mod::lemma_small_mod((s + 1) as nat, len as nat);
            assert(c[s + 1] == back_walk(g, start, (hi - (s + 1)) as nat));
            assert((hi - s - 1) as nat == (hi - (s + 1)) as nat);
        } else {
            vstd::arithmetic::div_mod::lemma_mod_self_0(len);
            assert(c[0] == back_walk(g, start, hi as nat));
            assert(hi - s == lo + 1);
            assert(((hi - s) - 1) as nat == lo as nat);
        }
    }
}

/// Law: while some node of a well-formed graph has not finished, some node can run now, and
/// `leaves` lists it.
pub proof fn lemma_some_leaf(g: ExecutionGraph)
    requires
        g.wf(),
        g.unfinished().len() > 0,
        g.unfinished().finite(),
    ensures
        exists|i: int| 0 <= i < g.flow().len() && #[trigger] is_leaf_at(g, i),
        g.leaves_upto(g.flow().len() as int).len() > 0,
{
    let f = g.flow();
    let n = f.len() as int;
    if !exists|i: int| 0 <= i < n && #[trigger] is_leaf_at(g, i) {
        lemma_blocked(g);
        let start = g.unfinished().choose();
        vstd::set_lib::lemma_set_empty_equivalency_len(g.unfinished());
        assert(g.unfinished().contains(start));
        let b = Seq::new((n + 1) as nat, |t: int| back_walk(g, start, t as nat));
        assert forall|t: int| 0 <= t < b.len() implies g.unfinished().contains(#[trigger] b[t]) by {
            lemma_back_walk(g, start, t as nat);
        }
        lemma_walk_repeats(g, b);
        let (lo, hi) = choose|i: int, j: int| 0 <= i < j < b.len() && b[i] == b[j];
        lemma_repeat_closes(g, start, lo, hi);
        let c = Seq::new((hi - lo) as nat, |s: int| back_walk(g, start, (hi - s) as nat));
        assert(!dep_closed_walk(g.deps(), c));
    }
    let i = choose|i: int| 0 <= i < n && #[trigger] is_leaf_at(g, i);
    lemma_leaves_upto(g, n);
    assert(g.leaves_upto(n).contains((f[i].0, f[i].1.1)));
}

/// Law: finishing a node takes it, and only it, out of the nodes still to finish.
pub proof fn lemma_complete_shrinks(a: ExecutionGraph, b: ExecutionGraph, m: u64)
    requires
        a.wf(),
        a.has_node(m),
        ExecutionGraph::complete_step(a, b, m),
    ensures
        b.unfinished() == a.unfinished().remove(m),
        b.wf(),
{
    lemma_complete_step_wf(a, b, m);
    assert forall|x: u64| b.unfinished().contains(x) <==> a.unfinished().remove(m).contains(x) by {
        if b.has_node(x) {
            let j = choose|j: int| 0 <= j < b.flow().len() && #[trigger] b.flow()[j].0 == x;
            assert(a.flow()[j].0 == x);
        }
        if a.has_node(x) {
            let j = choose|j: int| 0 <= j < a.flow().len() && #[trigger] a.flow()[j].0 == x;
            assert(b.flow()[j].0 == x);
        }
        if b.done(x) {
            let j = choose|j: int| 0 <= j < b.flow().len() && #[trigger] b.flow()[j].0 == x && b.flow()[j].1.1 == ExecutionGraph::FINISHED;
            assert(a.flow()[j].0 == x);
        }
        if a.done(x) {
            let j = choose|j: int| 0 <= j < a.flow().len() && #[trigger] a.flow()[j].0 == x && a.flow()[j].1.1 == ExecutionGraph::FINISHED;
            assert(b.flow()[j].0 == x);
        }
        if x == m {
            let j = choose|j: int| 0 <= j < a.flow().len() && #[trigger] a.flow()[j].0 == m;
            assert(b.flow()[j].0 == m);
        }
    }
    assert(b.unfinished() =~= a.unfinished().remove(m));
}

/// Law: finishing a node that has already finished changes nothing.
pub proof fn lemma_complete_idempotent(a: ExecutionGraph, b: ExecutionGraph, m: u64)
    requires
        a.wf(),
        a.done(m),
        ExecutionGraph::complete_step(a, b, m),
    ensures
        b.flow() == a.flow(),
        b.deps() == a.deps(),
{
    let j = choose|j: int| 0 <= j < a.flow().len() && #[trigger] a.flow()[j].0 == m && a.flow()[j].1.1 == ExecutionGraph::FINISHED;
    assert forall|t: int| 0 <= t < a.flow().len() implies #[trigger] b.flow()[t] == a.flow()[t] by {
        if a.flow()[t].0 == m {
            assert(t == j);
        }
    }
    assert(b.flow() =~= a.flow());
}

/// Step `s` of a run finishes the node picked, which could run.
pub open spec fn exec_run_step(run: Seq<ExecutionGraph>, picks: Seq<u64>, s: int) -> bool {
    &&& exists|i: int| 0 <= i < run[s].flow().len() && #[trigger] is_leaf_at(run[s], i) && run[s].flow()[i].0 == picks[s]
    &&& ExecutionGraph::complete_step(run[s], run[s + 1], picks[s])
}

/// The state after `t` steps of a run: well formed, and what is left to finish is what was left
/// at the start, less the nodes picked, none picked twice.
proof fn lemma_exec_run_prefix(run: Seq<ExecutionGraph>, picks: Seq<u64>, t: int)
    requires
        run.len() == picks.len() + 1,
        run[0].wf(),
        forall|s: int| 0 <= s < picks.len() ==> #[trigger] exec_run_step(run, picks, s),
        0 <= t <= picks.len(),
    ensures
        run[t].wf(),
        picks.take(t).no_duplicates(),
        run[t].unfinished() == run[0].unfinished().difference(picks.take(t).to_set()),
    decreases t,
{
    if t == 0 {
        assert(picks.take(0).to_set() =~= Set::<u64>::empty());
        assert(run[0].unfinished().difference(Set::<u64>::empty()) =~= run[0].unfinished());
    } else {
        lemma_exec_run_prefix(run, picks, t - 1);
        let a = run[t - 1];
        let b = run[t];
        let m = picks[t - 1];
        assert(exec_run_step(run, picks, t - 1));
        let i = choose|i: int| 0 <= i < a.flow().len() && #[trigger] is_leaf_at(a, i) && a.flow()[i].0 == m;
        assert(a.has_node(m));
        assert(!a.done(m)) by {
            if a.done(m) {
                let j = choose|j: int| 0 <= j < a.flow().len() && #[trigger] a.flow()[j].0 == m && a.flow()[j].1.1 == ExecutionGraph::FINISHED;
                assert(j == i);
            }
        }
        assert(a.unfinished().contains(m));
        lemma_complete_shrinks(a, b, m);
        let before = picks.take(t - 1);
        assert(picks.take(t) =~= before.push(m));
        assert(!before.contains(m)) by {
            if before.contains(m) {
                assert(before.to_set().contains(m));
            }
        }
        assert(picks.take(t).to_set() =~= before.to_set().insert(m)) by {
            Seq::lemma_to_set_insert_commutes(before, m);
            assert(before.push(m) =~= before + seq![m]);
        }
        assert(b.unfinished() =~= run[0].unfinished().difference(picks.take(t).to_set()));
    }
}

/// Law: a run that finishes, one after another, nodes that can run, starting from a well-formed
/// graph with nothing finished, never finishes a node twice; where it ends with no node that can
/// run, it has finished every node.
pub proof fn lemma_exec_run_completes_all(run: Seq<ExecutionGraph>, picks: Seq<u64>)
    requires
        run.len() == picks.len() + 1,
        run[0].wf(),
        forall|i: int| 0 <= i < run[0].flow().len() ==> (#[trigger] run[0].flow()[i]).1.1 != ExecutionGraph::FINISHED,
        forall|s: int| 0 <= s < picks.len() ==> #[trigger] exec_run_step(run, picks, s),
    ensures
        picks.no_duplicates(),
        run.last().leaves_upto(run.last().flow().len() as int).len() == 0 ==> forall|i: int|
            0 <= i < run[0].flow().len() ==> picks.contains(#[trigger] run[0].flow()[i].0),
{
    let n = picks.len() as int;
    lemma_exec_run_prefix(run, picks, n);
    assert(picks.take(n) =~= picks);
    let last = run[n];
    assert(last == run.last());
    if last.leaves_upto(last.flow().len() as int).len() == 0 {
        assert(last.unfinished().finite()) by {
            let ids = last.flow().map_values(|e: (u64, (usize, u8))| e.0).to_set();
            assert(last.unfinished().subset_of(ids)) by {
                assert forall|x: u64| last.unfinished().contains(x) implies ids.contains(x) by {
                    let j = choose|j: int| 0 <= j < last.flow().len() && #[trigger] last.flow()[j].0 == x;
                    assert(last.flow().map_values(|e: (u64, (usize, u8))| e.0)[j] == x);
                }
            }
            vstd::set_lib::lemma_len_subset(last.unfinished(), ids);
        }
        if last.unfinished().len() > 0 {
            lemma_some_leaf(last);
        }
        assert forall|i: int| 0 <= i < run[0].flow().len() implies picks.contains(#[trigger] run[0].flow()[i].0) by {
            let x = run[0].flow()[i].0;
            assert(run[0].has_node(x));
            assert(!run[0].done(x)) by {
                if run[0].done(x) {
                    let j = choose|j: int| 0 <= j < run[0].flow().len() && #[trigger] run[0].flow()[j].0 == x && run[0].flow()[j].1.1 == ExecutionGraph::FINISHED;
                }
            }
            assert(run[0].unfinished().contains(x));
            if !picks.contains(x) {
                assert(!picks.to_set().contains(x));
                assert(last.unfinished().contains(x));
                vstd::set_lib::lemma_set_empty_equivalency_len(last.unfinished());
            }
        }
    }
}

/// Law: marking a node that has not started as handed out leaves the same nodes able to run,
/// in the same order; only that node's state reads as handed out.
pub proof fn lemma_pending_keeps_leaves(a: ExecutionGraph, b: ExecutionGraph, i: int, n: int)
    requires
        0 <= i < a.flow().len(),
        a.flow()[i].1.1 == ExecutionGraph::INIT,
        b.flow() == a.flow().update(i, (a.flow()[i].0, (a.flow()[i].1.0, ExecutionGraph::PENDING))),
        0 <= n <= a.flow().len(),
    ensures
        b.leaves_upto(n).len() == a.leaves_upto(n).len(),
        forall|t: int| 0 <= t < a.leaves_upto(n).len() ==> (#[trigger] b.leaves_upto(n)[t]).0 == a.leaves_upto(n)[t].0,
    decreases n,
{
    if n > 0 {
        lemma_pending_keeps_leaves(a, b, i, n - 1);
        let la = a.leaves_upto(n - 1);
        let lb = b.leaves_upto(n - 1);
        if a.flow()[n - 1].1.1 != ExecutionGraph::FINISHED && a.flow()[n - 1].1.0 == 0 {
            assert forall|t: int| 0 <= t < a.leaves_upto(n).len() implies (#[trigger] b.leaves_upto(n)[t]).0 == a.leaves_upto(n)[t].0 by {
                if t < la.len() {
                    assert(b.leaves_upto(n)[t] == lb[t]);
                    assert(a.leaves_upto(n)[t] == la[t]);
                }
            }
        } else {
            assert(b.leaves_upto(n) == lb);
        }
    }
}

/// Law: the nodes listed as able to run among the first `n` are, in increasing order of position
/// and each once, exactly the nodes below `n` that have not finished and have no dependency left
/// to finish, each with its state.
pub proof fn lemma_exec_leaves_exact(g: ExecutionGraph, n: int) -> (pos: Seq<int>)
    requires
        0 <= n <= g.flow().len(),
    ensures
        pos.len() == g.leaves_upto(n).len(),
        forall|s: int, t: int| 0 <= s < t < pos.len() ==> pos[s] < pos[t],
        forall|t: int|
            0 <= t < pos.len() ==> 0 <= #[trigger] pos[t] < n && g.leaves_upto(n)[t] == (g.flow()[pos[t]].0, g.flow()[pos[t]].1.1)
                && g.flow()[pos[t]].1.1 != ExecutionGraph::FINISHED && g.flow()[pos[t]].1.0 == 0,
        forall|i: int|
            0 <= i < n && g.flow()[i].1.1 != ExecutionGraph::FINISHED && g.flow()[i].1.0 == 0 ==> pos.contains(i),
    decreases n,
{
    if n == 0 {
        Seq::empty()
    } else {
        let prev = lemma_exec_leaves_exact(g, n - 1);
        let e = g.flow()[n - 1];
        if e.1.1 != ExecutionGraph::FINISHED && e.1.0 == 0 {
            let pos = prev.push(n - 1);
            assert(g.leaves_upto(n) == g.leaves_upto(n - 1).push((e.0, e.1.1)));
            assert forall|t: int| 0 <= t < pos.len() implies 0 <= #[trigger] pos[t] < n && g.leaves_upto(n)[t] == (
                g.flow()[pos[t]].0,
                g.flow()[pos[t]].1.1,
            ) && g.flow()[pos[t]].1.1 != ExecutionGraph::FINISHED && g.flow()[pos[t]].1.0 == 0 by {
                if t < prev.len() {
                    assert(pos[t] == prev[t]);
                    assert(g.leaves_upto(n)[t] == g.leaves_upto(n - 1)[t]);
                }
            }
            assert forall|i: int|
                0 <= i < n && g.flow()[i].1.1 != ExecutionGraph::FINISHED && g.flow()[i].1.0 == 0 implies pos.contains(i) by {
                if i < n - 1 {
                    assert(prev.contains(i));
                    let t = choose|t: int| 0 <= t < prev.len() && prev[t] == i;
                    assert(pos[t] == i);
                } else {
                    assert(pos[prev.len() as int] == i);
                }
            }
            pos
        } else {
            assert forall|i: int|
                0 <= i < n && g.flow()[i].1.1 != ExecutionGraph::FINISHED && g.flow()[i].1.0 == 0 implies prev.contains(i) by {
                if i == n - 1 {
                    assert(false);
                }
            }
            assert(g.leaves_upto(n) == g.leaves_upto(n - 1));
            prev
        }
    }
}

} // verus!
