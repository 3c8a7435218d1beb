use std::collections::HashSet;

use execution_graph::prelude::{Graph, Link};

const A: u64 = 1;
const B: u64 = 2;
const C: u64 = 3;
const D: u64 = 4;
const E: u64 = 5;
const F: u64 = 6;
const G: u64 = 7;
const H: u64 = 8;
const I: u64 = 9;
const J: u64 = 10;
const K: u64 = 11;

fn data_of(graph: &Graph<u64>, index: usize) -> u64 {
    *graph.nodes()[index].data()
}

/// Completes every node that can run now, checking that they are exactly `expected`.
fn complete_round(graph: &mut Graph<u64>, expected: &[u64]) {
    let leaves = graph.find_leaves();
    let mut not_seen: HashSet<u64> = expected.iter().cloned().collect();
    for leaf in leaves {
        let data = data_of(graph, leaf);
        assert!(not_seen.contains(&data));
        not_seen.remove(&data);
        graph.complete(leaf);
    }
}

#[test]
fn single_link() {
    let mut world = HashSet::new();
    world.insert(A);
    world.insert(B);

    let a_to_b = Link::free(A, B);

    let links = vec![a_to_b];

    let mut graph = Graph::new(world, links);

    let mut leaves = graph.find_leaves();

    assert_eq!(leaves.len(), 1);
    let leaf = leaves.remove(0);
    assert_eq!(data_of(&graph, leaf), A);

    graph.complete(leaf);

    let mut leaves = graph.find_leaves();

    assert_eq!(leaves.len(), 1);
    let leaf = leaves.remove(0);
    assert_eq!(data_of(&graph, leaf), B);

    graph.complete(leaf);

    let leaves = graph.find_leaves();
    assert_eq!(leaves.len(), 0);
}

#[test]
fn double_link() {
    let a_to_b = Link::free(A, B);
    let b_to_c = Link::free(B, C);

    let mut world = HashSet::new();
    world.insert(A);
    world.insert(B);
    world.insert(C);

    let links = vec![a_to_b, b_to_c];

    let mut graph = Graph::new(world, links);

    let mut leaves = graph.find_leaves();

    assert_eq!(leaves.len(), 1);
    let leaf = leaves.remove(0);
    assert_eq!(data_of(&graph, leaf), A);

    graph.complete(leaf);

    let mut leaves = graph.find_leaves();

    assert_eq!(leaves.len(), 1);
    let leaf = leaves.remove(0);
    assert_eq!(data_of(&graph, leaf), B);

    graph.complete(leaf);

    let mut leaves = graph.find_leaves();

    assert_eq!(leaves.len(), 1);
    let leaf = leaves.remove(0);
    assert_eq!(data_of(&graph, leaf), C);

    graph.complete(leaf);

    let leaves = graph.find_leaves();
    assert_eq!(leaves.len(), 0);
}

#[test]
fn complex_scenario() {
    let mut world = HashSet::new();
    for x in [A, B, C, D, E, F, G, H, I, J, K] {
        world.insert(x);
    }

    let links = vec![
        Link::free(A, B),
        Link::free(B, D),
        Link::free(D, C),
        Link::free(D, F),
        Link::free(E, D),
        Link::free(F, G),
        Link::free(G, I),
        Link::free(H, G),
        Link::free(J, K),
    ];

    let mut graph = Graph::new(world, links);

    complete_round(&mut graph, &[A, E, J, H]);
    complete_round(&mut graph, &[K, B]);
    complete_round(&mut graph, &[D]);
    complete_round(&mut graph, &[C, F]);
    complete_round(&mut graph, &[G]);
    complete_round(&mut graph, &[I]);

    let leaves = graph.find_leaves();
    assert_eq!(leaves.len(), 0);
}

#[test]
fn complex_cycle() {
    let mut world = HashSet::new();
    for x in [A, B, C, D, E, F, G] {
        world.insert(x);
    }

    let links = vec![
        Link::free(A, B),
        Link::free(B, C),
        Link::free(C, D),
        Link::free(E, F),
        Link::free(C, E),
        Link::free(G, E),
        Link::free(E, B),
    ];

    let mut graph = Graph::new(world, links);

    complete_round(&mut graph, &[A, C, G]);
    complete_round(&mut graph, &[D, E]);
    complete_round(&mut graph, &[F, B]);

    let leaves = graph.find_leaves();
    assert_eq!(leaves.len(), 0);
}

#[test]
fn simple_cycle() {
    let links = vec![Link::free(A, B), Link::free(B, A)];

    let mut world = HashSet::new();
    world.insert(A);
    world.insert(B);

    let mut graph = Graph::new(world, links);

    let leaves = graph.find_leaves();
    assert_eq!(leaves.len(), 1);

    let leaf = *leaves.first().unwrap();
    assert_eq!(data_of(&graph, leaf), B);

    graph.complete(leaf);

    let leaves = graph.find_leaves();
    assert_eq!(leaves.len(), 1);

    let leaf = *leaves.first().unwrap();
    assert_eq!(data_of(&graph, leaf), A);

    graph.complete(leaf);

    let leaves = graph.find_leaves();

    assert_eq!(leaves.len(), 0);
}
