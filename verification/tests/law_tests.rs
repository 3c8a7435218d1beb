use std::collections::HashSet;
use std::rc::Rc;

use execution_graph::execution_graph::{Entry, ExecutionGraph};
use execution_graph::graph::node::status::Status;
use execution_graph::node::Node as PathNode;
use execution_graph::ordering::{extend_set, set_items, set_within, ExecutionOrdering, SchedulerOrdering};
use execution_graph::prelude::{Flow, Graph, Link, Node};

/// A small deterministic generator of numbers.
struct Lcg(u64);

impl Lcg {
    fn next(&mut self, bound: u64) -> u64 {
        self.0 = self.0.wrapping_mul(6364136223846793005).wrapping_add(1442695040888963407);
        (self.0 >> 33) % bound
    }
}

fn random_links(seed: u64, world: &[u64], count: usize) -> Vec<Link<u64>> {
    let mut rng = Lcg(seed);
    (0..count)
        .map(|_| {
            let from = world[rng.next(world.len() as u64) as usize];
            let to = world[rng.next(world.len() as u64) as usize];
            Link::free(from, to)
        })
        .collect()
}

/// Runs the graph to its end, completing at most two leaves per round; checks that every leaf
/// waits for nothing and that each identifier of `world` runs once.
fn complete_forest(world: &HashSet<u64>, graph: &mut Graph<u64>) -> bool {
    let mut world = world.clone();
    loop {
        let mut leaves = graph.find_leaves();
        if leaves.is_empty() {
            break;
        }
        for _ in 0..2 {
            let Some(leaf) = leaves.pop() else { break; };
            let node = &graph.nodes()[leaf];
            assert_eq!(node.in_degree(), 0);
            let data = *node.data();
            assert!(world.remove(&data));
            graph.complete(leaf);
        }
    }
    world.is_empty()
}

#[test]
fn build_covers_the_world() {
    for seed in 0..40u64 {
        let size = 1 + (seed % 25) as usize;
        let ids: Vec<u64> = (100..100 + size as u64).collect();
        let world: HashSet<u64> = ids.iter().cloned().collect();
        let links = random_links(seed, &ids, (seed as usize * 3) % 90 + 1);

        let mut graph = Graph::new_2(world.clone(), random_links(seed, &ids, links.len()));
        assert_eq!(graph.nodes().len(), world.len());
        assert!(complete_forest(&world, &mut graph));

        let mut graph = Graph::new_3(world.clone(), links);
        assert_eq!(graph.nodes().len(), world.len());
        assert!(complete_forest(&world, &mut graph));
    }
}

#[test]
fn index_and_walk_builds_agree() {
    for seed in 0..20u64 {
        let ids: Vec<u64> = (0..12).collect();
        let world: HashSet<u64> = ids.iter().cloned().collect();
        let a = Graph::new_2(world.clone(), random_links(seed, &ids, 30));
        let b = Graph::new_3(world.clone(), random_links(seed, &ids, 30));
        let describe = |g: &Graph<u64>| {
            let mut v: Vec<(u64, usize, usize)> =
                g.nodes().iter().map(|n| (*n.data(), n.in_degree(), n.out_degree())).collect();
            v.sort();
            v
        };
        assert_eq!(describe(&a), describe(&b));
    }
}

#[test]
fn long_chain_uses_every_link() {
    // more than 64 links: the index is used
    let ids: Vec<u64> = (0..80).collect();
    let world: HashSet<u64> = ids.iter().cloned().collect();
    let links: Vec<Link<u64>> = (0..79).map(|i| Link::free(i, i + 1)).collect();
    let mut graph = Graph::new(world, links);
    for expected in 0..80u64 {
        let leaves = graph.find_leaves();
        assert_eq!(leaves.len(), 1);
        assert_eq!(*graph.nodes()[leaves[0]].data(), expected);
        graph.complete(leaves[0]);
    }
    assert!(graph.find_leaves().is_empty());
}

#[test]
fn self_link_is_left_out() {
    let world: HashSet<u64> = HashSet::from([7]);
    let graph = Graph::new(world, vec![Link::free(7, 7)]);
    assert_eq!(graph.nodes().len(), 1);
    assert_eq!(graph.nodes()[0].in_degree(), 0);
    assert_eq!(graph.nodes()[0].out_degree(), 0);
    assert_eq!(graph.find_leaves(), vec![0]);
}

#[test]
fn link_ends_outside_the_world_make_nodes() {
    let graph = Graph::new(HashSet::new(), vec![Link::free(1, 2)]);
    // the node for the target comes first, then the one for the source
    assert_eq!(graph.nodes().len(), 2);
    assert_eq!(*graph.nodes()[0].data(), 2);
    assert_eq!(*graph.nodes()[1].data(), 1);
    assert_eq!(graph.nodes()[0].in_degree(), 1);
    assert_eq!(graph.find_leaves(), vec![1]);
}

#[test]
fn duplicate_links_count_twice() {
    let world: HashSet<u64> = HashSet::from([1, 2]);
    let mut graph = Graph::new(world, vec![Link::free(1, 2), Link::free(1, 2)]);
    assert_eq!(graph.nodes()[0].in_degree(), 2);
    let leaves = graph.find_leaves();
    assert_eq!(leaves, vec![1]);
    graph.complete(1);
    assert_eq!(graph.nodes()[0].in_degree(), 0);
    assert_eq!(graph.find_leaves(), vec![0]);
}

#[test]
fn cycle_closing_link_is_dropped() {
    let world: HashSet<u64> = HashSet::from([1, 2, 3]);
    // taken in from the last: 2 -> 3, 1 -> 2, then 3 -> 1 would close a cycle
    let graph = Graph::new_3(world, vec![Link::free(3, 1), Link::free(1, 2), Link::free(2, 3)]);
    let leaves = graph.find_leaves();
    assert_eq!(leaves.len(), 1);
    assert_eq!(*graph.nodes()[leaves[0]].data(), 1);
}

#[test]
fn node_counts_wrap_as_atomics_do() {
    let mut node = Node::new(5u64);
    assert!(node.is_ready());
    node.make_one_unready();
    assert_eq!(node.in_degree(), 1);
    assert!(!node.is_ready());
    node.make_one_ready();
    assert_eq!(node.in_degree(), 0);
    node.make_one_ready();
    assert_eq!(node.in_degree(), usize::MAX);
    node.make_one_unready();
    assert_eq!(node.in_degree(), 0);
    node.complete();
    assert!(matches!(node.status(), Status::Complete));
    assert!(!node.is_ready());
}

#[test]
fn searches_find_reachable_children() {
    // 0 -> 1 -> 2, and 3 alone
    let mut nodes: Vec<Node<u64>> = (0..4u64).map(Node::new).collect();
    nodes[0].insert_out_neighbour(1);
    nodes[1].insert_out_neighbour(2);
    assert!(nodes[0].contains_child(&nodes, &2, &mut HashSet::new()));
    assert!(!nodes[0].contains_child(&nodes, &3, &mut HashSet::new()));
    assert!(!nodes[2].contains_child(&nodes, &0, &mut HashSet::new()));
    assert!(nodes[0].contains_child_2(&nodes, &2, Vec::new()));
    assert!(!nodes[0].contains_child_2(&nodes, &3, Vec::new()));
    // a seen node is not passed
    assert!(!nodes[0].contains_child_2(&nodes, &2, vec![1]));
    assert!(!nodes[0].contains_child(&nodes, &2, &mut HashSet::from([1])));
    // a node carrying the child is found at once
    assert!(nodes[3].contains_child_2(&nodes, &3, vec![3]));
}

#[test]
fn completing_a_node_releases_its_successors() {
    let world: HashSet<u64> = HashSet::from([1, 2, 3]);
    let mut graph = Graph::new(world, vec![Link::free(1, 3), Link::free(2, 3)]);
    let target = graph.nodes().iter().position(|n| *n.data() == 3).unwrap();
    assert_eq!(graph.nodes()[target].in_degree(), 2);
    let one = graph.nodes().iter().position(|n| *n.data() == 1).unwrap();
    graph.complete(one);
    assert_eq!(graph.nodes()[target].in_degree(), 1);
    assert!(matches!(graph.nodes()[one].status(), Status::Complete));
    assert!(!graph.find_leaves().contains(&one));
}

#[test]
fn empty_execution_graph_is_finished() {
    let graph = ExecutionGraph::new_empty();
    assert!(graph.finished());
    assert!(graph.leaves().is_empty());
    let input: Vec<(u64, &SchedulerOrdering)> = Vec::new();
    let graph = ExecutionGraph::new(&input);
    assert!(graph.finished());
}

fn run_to_end(mut graph: ExecutionGraph, mut should_see: HashSet<u64>) {
    if !should_see.is_empty() {
        assert!(!graph.leaves().is_empty());
    }
    while !graph.leaves().is_empty() {
        let leaf = graph.leaves()[0].0;
        assert!(should_see.remove(&leaf));
        graph.mark_as_complete(&leaf);
    }
    assert!(should_see.is_empty());
}

#[test]
fn every_node_runs_once() {
    for seed in 0..30u64 {
        let mut rng = Lcg(seed);
        let n = 1 + rng.next(12) as usize;
        let ids: Vec<u64> = (0..n as u64).map(|i| i * 3 + seed).collect();
        let orderings: Vec<SchedulerOrdering> = ids
            .iter()
            .map(|_| {
                let mut o = SchedulerOrdering::default();
                for _ in 0..rng.next(4) {
                    o = o.insert_before(ids[rng.next(n as u64) as usize]);
                }
                for _ in 0..rng.next(4) {
                    o = o.insert_after(ids[rng.next(n as u64) as usize]);
                }
                o.set_priority(rng.next(5) as i64 - 2);
                o
            })
            .collect();
        let input: Vec<(u64, &SchedulerOrdering)> = ids.iter().cloned().zip(orderings.iter()).collect();
        let graph = ExecutionGraph::new(&input);
        assert!(!graph.finished());
        run_to_end(graph, ids.iter().cloned().collect());
    }
}

#[test]
fn finishing_twice_changes_nothing() {
    let a = SchedulerOrdering::default().insert_before(2);
    let b = SchedulerOrdering::default();
    let c = SchedulerOrdering::default().insert_after(1);
    let input = vec![(1, &a), (2, &b), (3, &c)];
    let mut graph = ExecutionGraph::new(&input);
    assert_eq!(graph.leaves(), vec![(1, ExecutionGraph::INIT)]);
    graph.mark_as_complete(&1);
    let after_once = graph.leaves();
    graph.mark_as_complete(&1);
    assert_eq!(graph.leaves(), after_once);
    assert_eq!(after_once, vec![(2, ExecutionGraph::INIT), (3, ExecutionGraph::INIT)]);
}

#[test]
fn pending_nodes_stay_leaves() {
    let a = SchedulerOrdering::default();
    let input = vec![(9, &a)];
    let mut graph = ExecutionGraph::new(&input);
    graph.mark_as_pending(&9);
    assert_eq!(graph.leaves(), vec![(9, ExecutionGraph::PENDING)]);
    graph.mark_as_complete(&9);
    assert!(graph.leaves().is_empty());
}

#[test]
fn flow_starts_at_dependency_counts() {
    let nodes = vec![(1u64, HashSet::from([2u64, 3])), (2, HashSet::new())];
    let flow = ExecutionGraph::create_flow(&nodes);
    assert_eq!(flow, vec![(1, (2, ExecutionGraph::INIT)), (2, (0, ExecutionGraph::INIT))]);
}

#[test]
fn highest_priority_on_the_cycle_is_cut() {
    // the path 1 -> 2 -> 3, looking for 1: the cycle is 1, 2, 3
    let p1 = Rc::new(PathNode { parent: None, id: 1 });
    let p2 = Rc::new(PathNode { parent: Some(p1), id: 2 });
    let p3 = Rc::new(PathNode { parent: Some(p2), id: 3 });
    let entries = vec![
        Entry { id: 1, after: HashSet::new(), priority: 5 },
        Entry { id: 2, after: HashSet::new(), priority: 9 },
        Entry { id: 3, after: HashSet::new(), priority: 1 },
    ];
    let found = ExecutionGraph::find_max_priority_in_cycle(&entries, &Some(p3.clone()), &1);
    assert_eq!(found, Some((2, Some(3))));
    // the end of the path has the highest priority
    let entries = vec![
        Entry { id: 1, after: HashSet::new(), priority: 5 },
        Entry { id: 2, after: HashSet::new(), priority: 0 },
        Entry { id: 3, after: HashSet::new(), priority: 7 },
    ];
    let found = ExecutionGraph::find_max_priority_in_cycle(&entries, &Some(p3.clone()), &1);
    assert_eq!(found, Some((3, None)));
    // not on the path
    assert_eq!(ExecutionGraph::find_max_priority_in_cycle(&entries, &Some(p3), &4), None);
    assert_eq!(ExecutionGraph::find_max_priority_in_cycle(&entries, &None, &1), None);
}

#[test]
fn lineage_holds_the_whole_path() {
    let root = Rc::new(PathNode { parent: None, id: 1 });
    let mid = Rc::new(PathNode { parent: Some(root.clone()), id: 2 });
    let leaf = PathNode { parent: Some(mid), id: 3 };
    assert_eq!(leaf.get_lineage(), HashSet::from([1, 2, 3]));
    assert_eq!(root.get_lineage(), HashSet::from([1]));
}

#[test]
fn flow_into_makes_cost_explicit() {
    assert!(matches!(Flow::Free.into(), Flow::Custom(0)));
    assert!(matches!(Flow::Custom(5).into(), Flow::Custom(5)));
}

#[test]
fn links_keep_their_ends() {
    let l = Link::new(1u64, 2u64, Flow::Custom(3));
    assert_eq!((l.from, l.to), (1, 2));
    assert!(matches!(l.flow, Flow::Custom(3)));
    let l = Link::free(4u64, 5u64);
    assert_eq!((l.from, l.to), (4, 5));
    assert!(matches!(l.flow, Flow::Free));
}

#[test]
fn scheduler_ordering_merges() {
    let mut a = SchedulerOrdering::default().insert_before(1).insert_after(2);
    let b = SchedulerOrdering::default().insert_before(3).insert_after(2);
    let mut b2 = b.clone();
    b2.set_priority(7);
    SchedulerOrdering::consume(&mut a, b2);
    assert_eq!(a.before(), &HashSet::from([1, 3]));
    assert_eq!(a.after(), &HashSet::from([2]));
    let narrowed = a.subsume(&HashSet::from([3, 2]));
    let (before, after, priority) = ExecutionOrdering::consume(narrowed);
    assert_eq!(before, HashSet::from([3]));
    assert_eq!(after, HashSet::from([2]));
    assert_eq!(priority, 7);
    assert_eq!(b.before(), &HashSet::from([3]));
}

#[test]
fn set_helpers() {
    let s: HashSet<u64> = HashSet::from([1, 2, 3]);
    let mut items = set_items(&s);
    items.sort();
    assert_eq!(items, vec![1, 2, 3]);
    assert_eq!(set_within(&s, &HashSet::from([2, 3, 4])), HashSet::from([2, 3]));
    let mut into: HashSet<u64> = HashSet::from([9]);
    extend_set(&mut into, &s);
    assert_eq!(into, HashSet::from([1, 2, 3, 9]));
}

fn entries(priorities: [i64; 3]) -> Vec<Entry> {
    vec![
        Entry { id: 1, after: HashSet::new(), priority: priorities[0] },
        Entry { id: 2, after: HashSet::from([1, 3]), priority: priorities[1] },
        Entry { id: 3, after: HashSet::from([2]), priority: priorities[2] },
    ]
}

#[test]
fn search_from_the_roots_cuts_at_the_top() {
    // 1 runs first; 2 and 3 wait for each other
    let mut nodes = entries([0, 5, 1]);
    let mut seen = HashSet::new();
    ExecutionGraph::construct_paths(&mut nodes, None, &mut seen);
    assert_eq!(seen, HashSet::from([1, 2, 3]));
    assert_eq!(nodes[1].after, HashSet::from([1, 3]));
    assert!(nodes[2].after.is_empty());

    let mut nodes = entries([0, 1, 9]);
    let mut seen = HashSet::from([7]);
    ExecutionGraph::construct_paths(&mut nodes, None, &mut seen);
    assert_eq!(seen, HashSet::from([1, 2, 3, 7]));
    assert_eq!(nodes[1].after, HashSet::from([1]));
    assert_eq!(nodes[2].after, HashSet::from([2]));
}

#[test]
fn search_from_a_path_records_the_next_steps() {
    let mut nodes = entries([0, 5, 1]);
    let root = Rc::new(PathNode { parent: None, id: 1 });
    let mut seen = HashSet::new();
    ExecutionGraph::construct_paths(&mut nodes, Some(root), &mut seen);
    assert!(seen.contains(&2));
    assert!(nodes[2].after.is_empty());
}

#[test]
fn the_two_searches_agree() {
    // 0 -> 1 -> 2 -> 0, and 3 -> 1
    let mut nodes: Vec<Node<u64>> = (0..4u64).map(Node::new).collect();
    nodes[0].insert_out_neighbour(1);
    nodes[1].insert_out_neighbour(2);
    nodes[2].insert_out_neighbour(0);
    nodes[3].insert_out_neighbour(1);
    for start in 0..4usize {
        for child in 0..5u64 {
            for seen in [vec![], vec![1], vec![2], vec![0, 2]] {
                let mut set: HashSet<u64> = seen.iter().cloned().collect();
                let a = nodes[start].contains_child(&nodes, &child, &mut set);
                let b = nodes[start].contains_child_2(&nodes, &child, seen.clone());
                assert_eq!(a, b);
            }
        }
    }
}

#[test]
fn search_ignores_unreachable_duplicates() {
    // 5 -> 6 -> 7, and another node carrying 6 that nothing reaches
    let mut nodes: Vec<Node<u64>> = vec![Node::new(5), Node::new(6), Node::new(7), Node::new(6)];
    nodes[0].insert_out_neighbour(1);
    nodes[1].insert_out_neighbour(2);
    let mut seen = HashSet::new();
    assert!(nodes[0].contains_child(&nodes, &7, &mut seen));
    assert!(seen.contains(&5));
    let mut seen = HashSet::new();
    assert!(!nodes[0].contains_child(&nodes, &8, &mut seen));
    assert_eq!(seen, HashSet::from([5, 6, 7]));
    let mut seen = HashSet::from([3]);
    assert!(nodes[2].contains_child(&nodes, &7, &mut seen));
    assert_eq!(seen, HashSet::from([3]));
}

#[test]
fn marking_pending_keeps_the_leaves() {
    let a = SchedulerOrdering::default();
    let b = SchedulerOrdering::default();
    let input = vec![(1, &a), (2, &b)];
    let mut graph = ExecutionGraph::new(&input);
    let before: Vec<u64> = graph.leaves().iter().map(|l| l.0).collect();
    graph.mark_as_pending(&2);
    let after: Vec<u64> = graph.leaves().iter().map(|l| l.0).collect();
    assert_eq!(before, after);
    assert_eq!(graph.leaves()[1], (2, ExecutionGraph::PENDING));
}
