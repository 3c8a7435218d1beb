use std::collections::HashSet;

use execution_graph::execution_graph::ExecutionGraph;
use execution_graph::ordering::SchedulerOrdering;

type T = u64;

/// Orders `f64` values as `total_cmp` does, as a key that compares the same way.
fn priority_key(x: f64) -> i64 {
    let bits = x.to_bits() as i64;
    bits ^ ((((bits >> 63) as u64) >> 1) as i64)
}

/// An ordering that runs before `before` and after `after`, with the priority `priority`.
fn ordering(before: &[T], after: &[T], priority: f64) -> SchedulerOrdering {
    let mut o = SchedulerOrdering::default();
    for b in before {
        o = o.insert_before(*b);
    }
    for a in after {
        o = o.insert_after(*a);
    }
    o.set_priority(priority_key(priority));
    o
}

fn leaf_set(graph: &ExecutionGraph) -> HashSet<T> {
    graph.leaves().iter().map(|(id, _)| *id).collect()
}

fn first_leaf(graph: &ExecutionGraph) -> Option<T> {
    graph.leaves().first().map(|(id, _)| *id)
}

#[test]
fn priority_awareness() {
    let a = 1;
    let b = 2;
    let c = 3;
    let d = 4;

    let ao = ordering(&[b], &[d], 1.0);
    let bo = ordering(&[], &[], 2.0);
    let co = ordering(&[d], &[b], 3.0);
    let ddo = ordering(&[], &[], 2.5);

    let input = vec![(a, &ao), (b, &bo), (c, &co), (d, &ddo)];

    let mut graph = ExecutionGraph::new(&input);
    let should_see = vec![d, a, b, c];
    let mut counting: HashSet<&u64> = HashSet::from_iter(should_see.iter());

    let mut index = 0;
    while graph.leaves().len() > 0 {
        let leaf = first_leaf(&graph).unwrap();
        assert_eq!(leaf, *should_see.get(index).unwrap());
        assert!(counting.remove(&leaf));
        graph.mark_as_complete(&leaf);
        index += 1;
    }
    assert_eq!(index, 4)
}

#[test]
fn non_cycle() {
    let a = 1;
    let b = 2;
    let c = 3;
    let d = 4;
    let e = 5;

    let ao = ordering(&[c], &[], 0.0);
    let bo = ordering(&[], &[], 0.0);
    let co = ordering(&[], &[b], 0.0);
    let ddo = ordering(&[e], &[], 0.0);
    let eo = ordering(&[], &[c], 0.0);

    let input = vec![(a, &ao), (b, &bo), (c, &co), (d, &ddo), (e, &eo)];

    let mut graph = ExecutionGraph::new(&input);

    let leaves = leaf_set(&graph);
    assert_eq!(leaves, HashSet::from([a, b, d]));
    for l in leaves {
        graph.mark_as_complete(&l);
    }
    let leaves = leaf_set(&graph);
    assert_eq!(leaves, HashSet::from([c]));
    graph.mark_as_complete(&c);
    let leaves = leaf_set(&graph);
    assert_eq!(leaves, HashSet::from([e]));
    graph.mark_as_complete(&e);
}

#[test]
fn closed_cycles_priority_last() {
    let a = 1;
    let b = 2;
    let c = 3;
    let d = 4;

    let ao = ordering(&[b], &[], 10.0);
    let bo = ordering(&[c], &[d], 2.0);
    let co = ordering(&[d], &[], 3.0);
    let ddo = ordering(&[], &[], 4.0);

    let input = vec![(a, &ao), (b, &bo), (c, &co), (d, &ddo)];

    let mut graph = ExecutionGraph::new(&input);
    let should_see = vec![a, b, c, d];
    let mut counting: HashSet<&u64> = HashSet::from_iter(should_see.iter());

    let mut index = 0;
    while graph.leaves().len() > 0 {
        let leaf = first_leaf(&graph).unwrap();
        assert_eq!(leaf, *should_see.get(index).unwrap());
        assert!(counting.remove(&leaf));
        graph.mark_as_complete(&leaf);
        index += 1;
    }

    assert_eq!(index, 4);
}

#[test]
fn closed_cycles_priority_penultimate() {
    let a = 1;
    let b = 2;
    let c = 3;
    let d = 4;

    let ao = ordering(&[b], &[], 10.0);
    let bo = ordering(&[c], &[d], 2.0);
    let co = ordering(&[d], &[], 4.0);
    let ddo = ordering(&[], &[], 3.0);

    let input = vec![(b, &bo), (c, &co), (a, &ao), (d, &ddo)];

    let mut graph = ExecutionGraph::new(&input);

    let leaves = leaf_set(&graph);
    assert_eq!(leaves, HashSet::from([a, d]));
    graph.mark_as_complete(&a);
    graph.mark_as_complete(&d);
    let leaves = leaf_set(&graph);
    assert_eq!(leaves, HashSet::from([b]));
    graph.mark_as_complete(&b);
    let leaves = leaf_set(&graph);
    assert_eq!(leaves, HashSet::from([c]));
    graph.mark_as_complete(&c);
}

#[test]
fn closed_cycles_priority_first() {
    let a = 1;
    let b = 2;
    let c = 3;
    let d = 4;

    let ao = ordering(&[b], &[], 10.0);
    let bo = ordering(&[c], &[d], 4.0);
    let co = ordering(&[d], &[], 2.0);
    let ddo = ordering(&[], &[], 3.0);

    let input = vec![(a, &ao), (d, &ddo), (c, &co), (b, &bo)];

    let mut graph = ExecutionGraph::new(&input);

    let leaves = leaf_set(&graph);
    assert_eq!(leaves, HashSet::from([a, c]));
    graph.mark_as_complete(&a);
    graph.mark_as_complete(&c);
    let leaves = leaf_set(&graph);
    assert_eq!(leaves, HashSet::from([d]));
    graph.mark_as_complete(&d);
    let leaves = leaf_set(&graph);
    assert_eq!(leaves, HashSet::from([b]));
    graph.mark_as_complete(&b);
}

#[test]
fn closed_cycles_priority_first_two_equal() {
    let a = 1;
    let b = 2;
    let c = 3;
    let d = 4;

    let ao = ordering(&[b], &[], 10.0);
    let bo = ordering(&[c], &[d], 4.0);
    let co = ordering(&[d], &[], 4.0);
    let ddo = ordering(&[], &[], 2.0);

    let input = vec![(d, &ddo), (b, &bo), (a, &ao), (c, &co)];

    let mut graph = ExecutionGraph::new(&input);

    let leaves = leaf_set(&graph);
    assert_eq!(leaves, HashSet::from([a, d]));
    graph.mark_as_complete(&a);
    graph.mark_as_complete(&d);
    let leaves = leaf_set(&graph);
    assert_eq!(leaves, HashSet::from([b]));
    graph.mark_as_complete(&b);
    let leaves = leaf_set(&graph);
    assert_eq!(leaves, HashSet::from([c]));
    graph.mark_as_complete(&c);
}

#[test]
fn contradictions() {
    let a = 1;
    let b = 2;
    let c = 3;

    let ao = ordering(&[], &[], 0.0);
    let bo = ordering(&[b, c], &[a], 0.0);
    let co = ordering(&[], &[], 0.0);

    let input = vec![(b, &bo), (a, &ao), (c, &co)];

    let mut graph = ExecutionGraph::new(&input);

    let leaves = leaf_set(&graph);
    assert_eq!(leaves, HashSet::from([a]));
    graph.mark_as_complete(&a);
    let leaves = leaf_set(&graph);
    assert_eq!(leaves, HashSet::from([b]));
    graph.mark_as_complete(&b);
    let leaves = leaf_set(&graph);
    assert_eq!(leaves, HashSet::from([c]));
    graph.mark_as_complete(&c);
}

#[test]
fn foo() {
    let a = 1;
    let b = 2;
    let c = 3;
    let d = 4;
    let e = 5;

    let ao = ordering(&[b], &[], 0.0);
    let bo = ordering(&[], &[], 0.0);
    let co = ordering(&[], &[b], 0.0);
    let dor = ordering(&[], &[b], 0.0);
    let eo = ordering(&[], &[c], 0.0);

    let input = vec![(b, &bo), (a, &ao), (c, &co), (d, &dor), (e, &eo)];

    let mut graph = ExecutionGraph::new(&input);

    let leaves = leaf_set(&graph);
    assert_eq!(leaves, HashSet::from([a]));
    graph.mark_as_complete(&a);
    let leaves = leaf_set(&graph);
    assert_eq!(leaves, HashSet::from([b]));
    graph.mark_as_complete(&b);
    let leaves = leaf_set(&graph);
    assert_eq!(leaves, HashSet::from([c, d]));
    graph.mark_as_complete(&c);
    graph.mark_as_complete(&d);
    let leaves = leaf_set(&graph);
    assert_eq!(leaves, HashSet::from([e]));
    graph.mark_as_complete(&e);

    assert_eq!(graph.leaves().len(), 0);
}
