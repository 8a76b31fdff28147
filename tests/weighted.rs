use nodify::process::{Contains, DeltaStepping, FindAny, FindFirst, Process};
use nodify::nodifyied::NodifyiedBuilder;
use nodify::{AsValue, Weighted};

use std::cmp::Reverse;
use std::collections::{BinaryHeap, HashMap};

/// The transition of a graph given by weighted adjacency lists.
fn edges_of(adj: &[Vec<(u64, usize)>]) -> impl Fn(usize) -> Vec<(u64, usize)> + Sync + '_ {
    move |i: usize| adj[i].clone()
}

/// Shortest distances from node 0, by Dijkstra's algorithm.
fn dijkstra(adj: &[Vec<(u64, usize)>]) -> HashMap<usize, u64> {
    let mut dist: HashMap<usize, u64> = HashMap::new();
    let mut heap = BinaryHeap::new();
    heap.push(Reverse((0u64, 0usize)));
    while let Some(Reverse((d, v))) = heap.pop() {
        if dist.contains_key(&v) {
            continue;
        }
        dist.insert(v, d);
        for &(w, u) in &adj[v] {
            if !dist.contains_key(&u) {
                heap.push(Reverse((d + w, u)));
            }
        }
    }
    dist
}

fn as_ids<N: AsValue<usize>>(table: HashMap<N, u64>) -> HashMap<usize, u64> {
    table.into_iter().map(|(p, d)| (p.as_value(), d)).collect()
}

/// A = 0, B = 1, C = 2, D = 3.
fn diamond() -> Vec<Vec<(u64, usize)>> {
    vec![vec![(1, 1), (4, 2)], vec![(1, 3)], vec![(1, 3)], vec![]]
}

/// A graph with cycles, zero weights, heavy and light edges.
fn tangled(n: usize) -> Vec<Vec<(u64, usize)>> {
    (0..n)
        .map(|i| {
            vec![
                (((i * 7) % 5) as u64, (i + 1) % n),
                (((i * 3) % 11) as u64 + 1, (i * 5 + 2) % n),
                (0, i / 3),
                (20, (i + n / 2) % n),
            ]
        })
        .collect()
}

#[test]
fn diamond_nearest_d_is_at_distance_two() {
    let adj = diamond();
    let builder = NodifyiedBuilder::new(edges_of(&adj));
    let engine = DeltaStepping::from_node(builder.build_weighted(0usize)).with_delta(2);
    let found = engine.find_first(|p: usize| p == 3).unwrap();
    assert_eq!(found.as_value(), 3);
    let table = as_ids(engine.distances());
    assert_eq!(table.get(&3), Some(&2));
    assert_eq!(table.get(&1), Some(&1));
    assert_eq!(table.get(&2), Some(&4));
    assert_eq!(table.get(&0), Some(&0));
}

#[test]
fn distances_match_dijkstra_for_every_delta() {
    for adj in [diamond(), tangled(1), tangled(7), tangled(60), tangled(250)] {
        let expected = dijkstra(&adj);
        for delta in [1u64, 2, 10, 1000] {
            let builder = NodifyiedBuilder::new(edges_of(&adj));
            let engine = DeltaStepping::from_node(builder.build_weighted(0usize)).with_delta(delta);
            assert_eq!(as_ids(engine.distances()), expected);
        }
    }
}

#[test]
fn nearest_match_distance_does_not_depend_on_delta() {
    let adj = tangled(120);
    let expected = dijkstra(&adj);
    for modulus in [7usize, 13, 50] {
        let best = expected.iter().filter(|(id, _)| *id % modulus == modulus - 1).map(|(_, d)| *d).min();
        for delta in [1u64, 2, 10, 1000] {
            let builder = NodifyiedBuilder::new(edges_of(&adj));
            let engine = DeltaStepping::from_node(builder.build_weighted(0usize)).with_delta(delta);
            let found = engine.find_first(|p: usize| p % modulus == modulus - 1);
            assert_eq!(found.map(|p| expected[&p.as_value()]), best);
            assert_eq!(engine.find_any(|p: usize| p % modulus == modulus - 1).map(|p| expected[&p.as_value()]), best);
        }
    }
}

#[test]
fn delta_stepping_without_match_gives_nothing() {
    let adj = tangled(1000);
    let builder = NodifyiedBuilder::new(edges_of(&adj));
    let engine = DeltaStepping::from_node(builder.build_weighted(0usize)).with_delta(3);
    assert!(engine.find_first(|p: usize| p >= 1000).is_none());
    assert!(!engine.contains(|p: usize| p >= 1000));
}

#[test]
fn delta_stepping_isolated_start_is_found() {
    let adj: Vec<Vec<(u64, usize)>> = vec![vec![]];
    let builder = NodifyiedBuilder::new(edges_of(&adj));
    let engine = DeltaStepping::from_node(builder.build_weighted(0usize)).with_delta(1);
    assert!(engine.contains(|p: usize| p == 0));
    assert_eq!(as_ids(engine.distances()), HashMap::from([(0usize, 0u64)]));
}

#[test]
fn delta_stepping_cycle_without_match_terminates() {
    let adj = vec![vec![(3u64, 1usize)], vec![(5, 0)]];
    let builder = NodifyiedBuilder::new(edges_of(&adj));
    let engine = DeltaStepping::from_node(builder.build_weighted(0usize)).with_delta(2);
    assert!(!engine.contains(|p: usize| p == 7));
    assert_eq!(as_ids(engine.distances()), HashMap::from([(0usize, 0u64), (1, 3)]));
}

#[test]
fn heavy_edge_is_beaten_by_light_path() {
    // 0 -> 1 costs 10 directly, 3 through node 2.
    let adj = vec![vec![(10u64, 1usize), (1, 2)], vec![], vec![(2, 1)]];
    for delta in [1u64, 2, 5, 100] {
        let builder = NodifyiedBuilder::new(edges_of(&adj));
        let engine = DeltaStepping::from_node(builder.build_weighted(0usize)).with_delta(delta);
        assert_eq!(as_ids(engine.distances()).get(&1), Some(&3));
    }
}

#[test]
fn largest_weights_saturate() {
    let adj = vec![vec![(u64::MAX, 1usize)], vec![(u64::MAX, 2)], vec![]];
    let builder = NodifyiedBuilder::new(edges_of(&adj));
    let engine = DeltaStepping::from_node(builder.build_weighted(0usize)).with_delta(u64::MAX);
    let table = as_ids(engine.distances());
    assert_eq!(table.get(&1), Some(&u64::MAX));
    assert_eq!(table.get(&2), Some(&u64::MAX));
}

#[test]
fn from_node_starts_with_zero_delta() {
    let adj = diamond();
    let builder = NodifyiedBuilder::new(edges_of(&adj));
    let engine = DeltaStepping::from_node(builder.build_weighted(0usize));
    assert!(engine == engine.with_delta(0));
    assert!(engine != engine.with_delta(2));
}

#[test]
fn weighted_nodifyied_outgoing_keeps_weights_and_order() {
    let builder = NodifyiedBuilder::new(|i: u32| vec![(3u64, i + 1), (1, i * 2)]);
    let edges: Vec<(u64, u32)> =
        builder.build_weighted(5u32).weighted_outgoing().into_iter().map(|(w, n)| (w, n.as_value())).collect();
    assert_eq!(edges, vec![(3, 6), (1, 10)]);
}

#[test]
fn edge_of_weight_delta_gives_its_distance() {
    // 0 -> 1 weighs exactly delta; 1 -> 2 weighs more than delta.
    let adj = vec![vec![(2u64, 1usize)], vec![(5, 2)], vec![]];
    let builder = NodifyiedBuilder::new(edges_of(&adj));
    let engine = DeltaStepping::from_node(builder.build_weighted(0usize)).with_delta(2);
    assert_eq!(as_ids(engine.distances()), HashMap::from([(0usize, 0u64), (1, 2), (2, 7)]));
    assert_eq!(engine.find_first(|p: usize| p == 1).map(|p| p.as_value()), Some(1));
}
