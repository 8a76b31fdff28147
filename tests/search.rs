use nodify::nodifyied::NodifyiedBuilder;
use nodify::process::{Contains, FindAny, Process, DFS, ParallelDFS};
use nodify::prelude::NodifyiedBuilder as Builder;
use nodify::{AsValue, Node};

use std::collections::HashMap;
use std::sync::Mutex;

/// The value of a node of a graph given by adjacency lists.
fn value<N: AsValue<usize>>(n: N) -> usize {
    n.as_value()
}

/// The transition of a graph given by adjacency lists.
fn adjacency(adj: &[Vec<usize>]) -> impl Fn(usize) -> Vec<usize> + Sync + '_ {
    move |i: usize| adj[i].clone()
}

fn chain(n: usize) -> Vec<Vec<usize>> {
    (0..n).map(|i| if i + 1 < n { vec![i + 1] } else { vec![] }).collect()
}

/// A graph of `n` nodes where node `i` points to `2i+1`, `2i+2` and back to `i/2`.
fn tree_with_back_edges(n: usize) -> Vec<Vec<usize>> {
    (0..n)
        .map(|i| {
            let mut next: Vec<usize> = vec![2 * i + 1, 2 * i + 2].into_iter().filter(|&j| j < n).collect();
            next.push(i / 2);
            next
        })
        .collect()
}

#[test]
fn isolated_node_satisfying_predicate_is_found() {
    let adj = vec![vec![]];
    let builder = NodifyiedBuilder::new(adjacency(&adj));
    let start = builder.build(0usize);
    assert!(DFS::from_node(start).contains(|v: usize| v == 0));
    assert!(ParallelDFS::from_node(start).contains(|v: usize| v == 0));
    assert_eq!(ParallelDFS::from_node(start).search_with_workers(|v: usize| v == 0, 8).map(|n| n.as_value()), Some(0));
}

#[test]
fn start_node_is_returned_without_expansion() {
    let calls = Mutex::new(0usize);
    let builder = NodifyiedBuilder::new(|i: u64| {
        *calls.lock().unwrap() += 1;
        vec![i + 1]
    });
    let start = builder.build(7u64);
    let found = DFS::from_node(start).find_any(|i: u64| i == 7);
    assert_eq!(found.map(|n| n.as_value()), Some(7));
    assert_eq!(*calls.lock().unwrap(), 0);
    let found = ParallelDFS::from_node(start).find_any(|i: u64| i == 7);
    assert_eq!(found.map(|n| n.as_value()), Some(7));
    assert_eq!(*calls.lock().unwrap(), 0);
}

#[test]
fn two_node_cycle_without_match_terminates() {
    let adj = vec![vec![1], vec![0]];
    let builder = NodifyiedBuilder::new(adjacency(&adj));
    let start = builder.build(0usize);
    assert!(!DFS::from_node(start).contains(|v: usize| v == 5));
    assert!(!ParallelDFS::from_node(start).contains(|v: usize| v == 5));
    for workers in [1usize, 2, 8, 64] {
        assert!(ParallelDFS::from_node(start).search_with_workers(|v: usize| v == 5, workers).is_none());
    }
}

#[test]
fn chain_of_ten_last_node_found_with_one_and_eight_workers() {
    let adj = chain(10);
    let builder = NodifyiedBuilder::new(adjacency(&adj));
    let start = builder.build(0usize);
    for workers in [1usize, 8] {
        let found = ParallelDFS::from_node(start).search_with_workers(|v: usize| v == 9, workers);
        assert_eq!(found.map(|v| v.as_value()), Some(9));
    }
    assert_eq!(DFS::from_node(start).find_any(|v: usize| v == 9).map(|v| v.as_value()), Some(9));
}

#[test]
fn thousand_nodes_without_match_give_nothing() {
    let adj = tree_with_back_edges(1000);
    let builder = NodifyiedBuilder::new(adjacency(&adj));
    let start = builder.build(0usize);
    assert!(DFS::from_node(start).find_any(|v: usize| v >= 1000).is_none());
    assert!(ParallelDFS::from_node(start).find_any(|v: usize| v >= 1000).is_none());
    for workers in [1usize, 2, 8, 64] {
        assert!(ParallelDFS::from_node(start).search_with_workers(|v: usize| v >= 1000, workers).is_none());
    }
}

#[test]
fn unreachable_node_is_not_found() {
    // 0 -> 1 -> 2, and 3 -> 0: node 3 is not reachable from 0.
    let adj = vec![vec![1], vec![2], vec![], vec![0]];
    let builder = NodifyiedBuilder::new(adjacency(&adj));
    let start = builder.build(0usize);
    assert!(!DFS::from_node(start).contains(|v: usize| v == 3));
    assert!(!ParallelDFS::from_node(start).contains(|v: usize| v == 3));
    assert!(DFS::from_node(builder.build(3usize)).contains(|v: usize| v == 2));
}

#[test]
fn sequential_and_parallel_agree_on_many_graphs() {
    for n in [1usize, 2, 5, 17, 64, 300] {
        let graphs = vec![chain(n), tree_with_back_edges(n)];
        for adj in &graphs {
            let builder = NodifyiedBuilder::new(adjacency(adj));
            let start = builder.build(0usize);
            for target in [0usize, 1, n / 2, n - 1, n, n + 3] {
                let pred = |v: usize| v == target;
                let expected = target < n;
                assert_eq!(DFS::from_node(start).contains(pred), expected);
                for workers in [1usize, 2, 8, 64] {
                    let found = ParallelDFS::from_node(start).search_with_workers(pred, workers);
                    assert_eq!(found.is_some(), expected);
                    if let Some(v) = found {
                        assert_eq!(value(v), target);
                    }
                }
            }
        }
    }
}

#[test]
fn parallel_answer_satisfies_predicate_for_every_worker_count() {
    let adj = tree_with_back_edges(200);
    let builder = NodifyiedBuilder::new(adjacency(&adj));
    let start = builder.build(0usize);
    for workers in [1usize, 2, 8, 64] {
        let found = ParallelDFS::from_node(start).search_with_workers(|v: usize| v % 37 == 36, workers);
        let v = found.expect("a node with id 36 mod 37 is reachable");
        assert_eq!(value(v) % 37, 36);
        assert!(value(v) < 200);
    }
    let v = ParallelDFS::from_node(start).search_with_workers(|v: usize| v % 37 == 36, 0).unwrap();
    assert_eq!(value(v) % 37, 36);
}

/// Counts, per value, how often the transition function ran.
fn counting_builder(counts: &Mutex<HashMap<u64, usize>>, n: u64) -> NodifyiedBuilder<impl Fn(u64) -> Vec<u64> + Sync + '_> {
    NodifyiedBuilder::new(move |i: u64| {
        *counts.lock().unwrap().entry(i).or_insert(0) += 1;
        // Every node points to the next two, modulo n, and back to 0.
        vec![(i + 1) % n, (i + 2) % n, 0]
    })
}

#[test]
fn each_node_is_expanded_at_most_once() {
    let counts = Mutex::new(HashMap::new());
    let builder = counting_builder(&counts, 50);
    let start = builder.build(0u64);
    assert!(!DFS::from_node(start).contains(|i: u64| i >= 50));
    let counts_seq = counts.lock().unwrap().clone();
    assert_eq!(counts_seq.len(), 50);
    assert!(counts_seq.values().all(|&c| c == 1));

    for workers in [1usize, 2, 8, 64] {
        counts.lock().unwrap().clear();
        assert!(ParallelDFS::from_node(start).search_with_workers(|i: u64| i >= 50, workers).is_none());
        let counts_par = counts.lock().unwrap().clone();
        assert_eq!(counts_par.len(), 50);
        assert!(counts_par.values().all(|&c| c == 1));
    }
}

#[test]
fn mutual_cycle_expands_each_node_once() {
    let counts = Mutex::new(HashMap::new());
    let builder = NodifyiedBuilder::new(|i: u64| {
        *counts.lock().unwrap().entry(i).or_insert(0) += 1;
        vec![1 - i]
    });
    let start = builder.build(0u64);
    assert!(!ParallelDFS::from_node(start).contains(|i: u64| i == 2));
    let seen = counts.lock().unwrap().clone();
    assert_eq!(seen.get(&0), Some(&1));
    assert_eq!(seen.get(&1), Some(&1));
}

#[test]
fn nodifyied_arithmetic_progression_reaches_forty_two() {
    let builder = NodifyiedBuilder::new(|i: i32| vec![i + 1]);
    assert!(DFS::from_node(builder.build(0)).contains(|i: i32| i == 42));
    assert!(ParallelDFS::from_node(builder.build(0)).contains(|i: i32| i == 42));
}

#[test]
fn nodifyied_outgoing_wraps_transition_results() {
    let builder = NodifyiedBuilder::new(|i: u32| vec![i * 2, i * 3]);
    let next: Vec<u32> = builder.build(5u32).outgoing().into_iter().map(|n| n.as_value()).collect();
    assert_eq!(next, vec![10, 15]);
    assert!(builder.build(4u32) == builder.build(4u32));
    assert!(builder.build(4u32) != builder.build(5u32));
}

fn double(i: u32) -> Vec<u32> {
    vec![i * 2]
}

fn triple(i: u32) -> Vec<u32> {
    vec![i * 3]
}

#[test]
fn nodifyied_with_outgoing_replaces_transition() {
    let mut builder = NodifyiedBuilder::new(double as fn(u32) -> Vec<u32>);
    let first: Vec<u32> = builder.build(1u32).outgoing().into_iter().map(|n| n.as_value()).collect();
    assert_eq!(first, vec![2]);
    builder.with_outgoing(triple as fn(u32) -> Vec<u32>);
    let second: Vec<u32> = builder.build(1u32).outgoing().into_iter().map(|n| n.as_value()).collect();
    assert_eq!(second, vec![3]);
}

/// The next pair of terms of the Fibonacci sequence, up to a bound.
fn fibonacci_step(terms: (u64, u64)) -> Vec<(u64, u64)> {
    let (previous, current) = terms;
    if current > 1000 {
        vec![]
    } else {
        vec![(current, previous + current)]
    }
}

#[test]
fn fibonacci_reaches_six_hundred_ten() {
    let builder = NodifyiedBuilder::new(fibonacci_step);
    let first = builder.build((0u64, 1u64));
    assert!(DFS::from_node(first).contains(|f: (u64, u64)| f.1 == 610));
    assert!(!DFS::from_node(first).contains(|f: (u64, u64)| f.1 == 600));
    assert!(ParallelDFS::from_node(first).contains(|f: (u64, u64)| f.1 == 610));
}

#[test]
fn as_process_builds_the_engine_for_the_node() {
    let builder = Builder::new(|i: u8| if i < 20 { vec![i + 1, i + 2] } else { vec![] });
    let found = builder.build(0u8).as_process::<DFS<_>>().contains(|i: u8| i == 21);
    assert!(found);
    let missing = builder.build(3u8).as_process::<ParallelDFS<_>>().contains(|i: u8| i == 2);
    assert!(!missing);
}

#[test]
fn dfs_pops_the_last_pushed_child_first() {
    let adj = vec![vec![1, 2], vec![], vec![]];
    let builder = NodifyiedBuilder::new(adjacency(&adj));
    let start = builder.build(0usize);
    let first = DFS::from_node(start).find_any(|v: usize| v > 0).map(value);
    assert_eq!(first, Some(2));
    let again = DFS::from_node(start).find_any(|v: usize| v > 0).map(value);
    assert_eq!(again, first);
}
