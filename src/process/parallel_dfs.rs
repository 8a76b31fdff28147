//! A depth-first search that expands nodes on several threads.
use vstd::prelude::*;

use std::collections::HashSet;
use std::hash::Hash;

use crate::parallel::{current_num_threads, par_map};
use crate::process::frontier::{
    advanced, expanded_once, is_frontier, lemma_advanced_trans, lemma_expanded_once_trans,
    lemma_log_of_visited, push_unvisited, step,
};
use crate::process::{Contains, FindAny, Process, DFS};
use crate::walk::{
    can_search, is_closed, is_expansion_log, is_predicate, is_search_answer, lemma_answer,
    lemma_closed_holds_reachable, lemma_reachable_start, lemma_search_answers_agree, reachable,
    reachable_set, satisfies, some_reachable_satisfies,
};
use crate::{AsValue, Node};

verus! {

/// The number of pop, visit and expand steps that one sequential stretch
/// makes before the frontier's size is looked at again.
pub const BATCH_THRESHOLD: usize = 50_000;

/// A depth-first search from a start node that shares its frontier and its
/// visited set among the threads of a pool.
///
/// While the frontier holds fewer nodes than there are workers, the search
/// runs on the calling thread for up to [`BATCH_THRESHOLD`] steps at a time.
/// Otherwise it takes one node per worker off the top of the frontier, marks
/// the new ones as visited, and has the workers test and expand them in
/// parallel. The visited set decides, alone, which node is expanded: a node is
/// expanded only by the step that inserted it.
#[derive(Clone, Copy, Debug, Default, PartialEq, Eq, Hash)]
pub struct ParallelDFS<N> {
    node: N,
}

impl<N> Process for ParallelDFS<N> {
    type Node = N;

    closed spec fn spec_start(&self) -> N {
        self.node
    }

    fn from_node(node: N) -> (r: Self) {
        ParallelDFS { node }
    }
}

/// What a worker reports of the node it was given.
struct Expansion<N> {
    /// The node.
    node: N,
    /// Whether the node satisfies the predicate.
    matched: bool,
    /// The node's outgoing neighbours, when it does not.
    next: Vec<N>,
}

/// Test `node` against `pred`, and compute its neighbours when it fails.
fn expand<I, N: Node + AsValue<I> + Copy, P: Fn(I) -> bool>(node: N, pred: &P) -> (r: Expansion<N>)
    requires
        is_predicate(*pred),
    ensures
        r.node == node,
        r.matched == satisfies(*pred, node),
        !r.matched ==> r.next@ == node.spec_outgoing(),
{
    let matched = pred(<N as AsValue<I>>::as_value(node));
    proof {
        lemma_answer(*pred, node.spec_as_value(), matched);
    }
    if matched {
        Expansion { node, matched, next: Vec::new() }
    } else {
        Expansion { node, matched, next: node.outgoing() }
    }
}

/// Run up to `threshold` steps on the calling thread.
fn next_until<I, N: Node + AsValue<I> + Copy + Eq + Hash, P: Fn(I) -> bool>(
    visited: &mut HashSet<N>,
    to_visit: &mut Vec<N>,
    threshold: usize,
    pred: &P,
    Ghost(start): Ghost<N>,
) -> (r: (Option<N>, Ghost<Seq<N>>))
    requires
        can_search(start, *pred),
        is_frontier(start, *pred, old(visited)@, old(to_visit)@),
        old(to_visit).len() > 0,
        threshold > 0,
    ensures
        expanded_once(old(visited)@, final(visited)@, r.1@),
        final(visited)@.subset_of(reachable_set(start)),
        satisfies(*pred, old(to_visit)@.last()) ==> r.0 == Some(old(to_visit)@.last()),
        match r.0 {
            Some(n) => reachable(start, n) && satisfies(*pred, n),
            None => is_frontier(start, *pred, final(visited)@, final(to_visit)@) && advanced(
                final(visited)@,
                final(to_visit)@,
                old(visited)@,
                old(to_visit)@,
            ),
        },
{
    let ghost visited0 = visited@;
    let ghost to_visit0 = to_visit@;
    let (found, Ghost(expanded)) = step(visited, to_visit, pred, Ghost(start));
    if found.is_some() {
        return (found, Ghost(expanded));
    }
    let ghost mut log = expanded;
    let mut count: usize = 1;
    while count < threshold && to_visit.len() > 0
        invariant
            can_search(start, *pred),
            is_frontier(start, *pred, visited@, to_visit@),
            advanced(visited@, to_visit@, visited0, to_visit0),
            expanded_once(visited0, visited@, log),
            visited0 == old(visited)@,
            to_visit0 == old(to_visit)@,
            !satisfies(*pred, to_visit0.last()),
            visited0.finite(),
            1 <= count <= threshold,
        decreases threshold - count,
    {
        let ghost visited1 = visited@;
        let ghost to_visit1 = to_visit@;
        let (found, Ghost(expanded)) = step(visited, to_visit, pred, Ghost(start));
        proof {
            lemma_expanded_once_trans(visited0, visited1, visited@, log, expanded);
            log = log + expanded;
        }
        if found.is_some() {
            return (found, Ghost(log));
        }
        proof {
            lemma_advanced_trans(visited0, to_visit0, visited1, to_visit1, visited@, to_visit@);
        }
        count += 1;
    }
    (None, Ghost(log))
}

/// Take up to `workers` nodes off the top of the frontier, insert them in the
/// visited set, and test and expand in parallel those that were new.
fn parallel_round<I, N, P>(
    visited: &mut HashSet<N>,
    to_visit: &mut Vec<N>,
    workers: usize,
    pred: &P,
    Ghost(start): Ghost<N>,
) -> (r: (Option<N>, Ghost<Seq<N>>)) where
    N: Node + AsValue<I> + Copy + Eq + Hash + Send + Sync,
    P: Fn(I) -> bool + Sync,

    requires
        can_search(start, *pred),
        is_frontier(start, *pred, old(visited)@, old(to_visit)@),
        old(to_visit).len() > 0,
        workers > 0,
    ensures
        expanded_once(old(visited)@, final(visited)@, r.1@),
        final(visited)@.subset_of(reachable_set(start)),
        satisfies(*pred, old(to_visit)@.last()) && !old(visited)@.contains(old(to_visit)@.last())
            ==> r.0 == Some(old(to_visit)@.last()),
        match r.0 {
            Some(n) => reachable(start, n) && satisfies(*pred, n),
            None => is_frontier(start, *pred, final(visited)@, final(to_visit)@) && advanced(
                final(visited)@,
                final(to_visit)@,
                old(visited)@,
                old(to_visit)@,
            ),
        },
{
    let ghost visited0 = visited@;
    let ghost to_visit0 = to_visit@;
    // Split the batch off the top of the frontier; keep the nodes that are new.
    let mut fresh: Vec<N> = Vec::new();
    let mut taken: usize = 0;
    while taken < workers && to_visit.len() > 0
        invariant
            can_search(start, *pred),
            visited0.finite(),
            visited0.subset_of(visited@),
            visited@.subset_of(reachable_set(start)),
            visited@.finite(),
            forall|v: N| #[trigger] visited@.contains(v) ==> visited0.contains(v) || fresh@.contains(v),
            fresh@.no_duplicates(),
            forall|i: int|
                0 <= i < fresh.len() ==> visited@.contains(#[trigger] fresh@[i]) && !visited0.contains(fresh@[i]),
            forall|i: int| 0 <= i < fresh.len() ==> reachable(start, #[trigger] fresh@[i]),
            forall|i: int| 0 <= i < to_visit.len() ==> reachable(start, #[trigger] to_visit@[i]),
            to_visit.len() + taken == to_visit0.len(),
            to_visit@ == to_visit0.take(to_visit.len() as int),
            forall|j: int| to_visit.len() <= j < to_visit0.len() ==> visited@.contains(#[trigger] to_visit0[j]),
            0 <= taken <= workers,
            workers > 0,
            to_visit0.len() > 0,
            taken >= 1 && !visited0.contains(to_visit0.last()) ==> fresh.len() >= 1 && fresh@[0]
                == to_visit0.last(),
            taken == 0 ==> visited@ == visited0 && fresh.len() == 0,
        decreases to_visit.len(),
    {
        let ghost pre = to_visit@;
        let node = to_visit.pop().unwrap();
        proof {
            assert(pre == to_visit@.push(node));
            assert(to_visit0[to_visit.len() as int] == node);
            assert(to_visit@ =~= to_visit0.take(to_visit.len() as int));
        }
        let ghost visited_pre = visited@;
        let ghost fresh_pre = fresh@;
        if visited.insert(node) {
            proof {
                assert(reachable_set(start).contains(node));
            }
            fresh.push(node);
            proof {
                assert(fresh@[fresh.len() - 1] == node);
                assert forall|v: N| #[trigger] visited@.contains(v) implies visited0.contains(v) || fresh@.contains(v) by {
                    if v != node && !visited0.contains(v) {
                        assert(visited_pre.contains(v));
                        assert(fresh_pre.contains(v));
                        let j = choose|j: int| 0 <= j < fresh_pre.len() && fresh_pre[j] == v;
                        assert(fresh@[j] == v);
                    }
                }
            }
        }
        taken += 1;
    }
    let ghost fresh_nodes = fresh@;
    let ghost visited1 = visited@;
    proof {
        assert forall|x: N| visited1.contains(x) <==> visited0.union(fresh_nodes.to_set()).contains(x) by {
            if fresh_nodes.to_set().contains(x) {
                let i = choose|i: int| 0 <= i < fresh_nodes.len() && fresh_nodes[i] == x;
                assert(visited1.contains(fresh_nodes[i]));
            }
        }
        assert(visited1 =~= visited0.union(fresh_nodes.to_set()));
        assert(expanded_once(visited0, visited1, fresh_nodes));
    }
    let ghost base = to_visit@;
    proof {
        assert(forall|j: int|
            base.len() <= j < to_visit0.len() ==> visited1.contains(#[trigger] to_visit0[j]));
        assert(base == to_visit0.take(base.len() as int));
    }
    // Test and expand the new nodes in parallel.
    let p: Ghost<P> = Ghost(*pred);
    let work = |n: N| -> (e: Expansion<N>)
        requires
            is_predicate(p@),
        ensures
            e.node == n,
            e.matched == satisfies(p@, n),
            !e.matched ==> e.next@ == n.spec_outgoing(),
    {
        expand(n, pred)
    };
    let expansions = par_map(fresh, work);
    proof {
        assert forall|i: int| 0 <= i < expansions.len() implies {
            &&& (#[trigger] expansions[i]).node == fresh_nodes[i]
            &&& expansions[i].matched == satisfies(*pred, fresh_nodes[i])
            &&& !expansions[i].matched ==> expansions[i].next@ == fresh_nodes[i].spec_outgoing()
        } by {
            assert(call_ensures(work, (fresh_nodes[i],), expansions[i]));
        }
    }
    let mut k: usize = 0;
    while k < expansions.len()
        invariant
            visited@ == visited1,
            visited1.subset_of(reachable_set(start)),
            visited0 == old(visited)@,
            to_visit0 == old(to_visit)@,
            satisfies(*pred, to_visit0.last()) && !visited0.contains(to_visit0.last()) ==> fresh_nodes.len()
                >= 1 && fresh_nodes[0] == to_visit0.last() && satisfies(*pred, fresh_nodes[0]),
            expanded_once(visited0, visited1, fresh_nodes),
            expansions.len() == fresh_nodes.len(),
            forall|i: int|
                0 <= i < expansions.len() ==> (#[trigger] expansions[i]).node == fresh_nodes[i]
                    && expansions[i].matched == satisfies(*pred, fresh_nodes[i]),
            forall|i: int| 0 <= i < fresh_nodes.len() ==> reachable(start, #[trigger] fresh_nodes[i]),
            0 <= k <= expansions.len(),
            forall|i: int| 0 <= i < k ==> !(#[trigger] expansions[i]).matched,
        decreases expansions.len() - k,
    {
        if expansions[k].matched {
            proof {
                assert(reachable(start, expansions[k as int].node));
            }
            proof {
                if satisfies(*pred, to_visit0.last()) && !visited0.contains(to_visit0.last()) {
                    assert(expansions[0].matched);
                    assert(k == 0);
                }
            }
            return (Some(expansions[k].node), Ghost(fresh_nodes));
        }
        k += 1;
    }
    // None of them matches: queue their unvisited neighbours.
    let mut k: usize = 0;
    while k < expansions.len()
        invariant
            vstd::std_specs::hash::obeys_key_model::<N>(),
            visited@ == visited1,
            expansions.len() == fresh_nodes.len(),
            0 <= k <= expansions.len(),
            forall|i: int| 0 <= i < fresh_nodes.len() ==> reachable(start, #[trigger] fresh_nodes[i]),
            forall|i: int|
                0 <= i < expansions.len() ==> (#[trigger] expansions[i]).next@
                    == fresh_nodes[i].spec_outgoing(),
            forall|w: N| base.contains(w) ==> to_visit@.contains(w),
            forall|i: int| 0 <= i < to_visit.len() ==> reachable(start, #[trigger] to_visit@[i]),
            forall|i: int, w: N|
                0 <= i < k && #[trigger] fresh_nodes[i].spec_outgoing().contains(w) ==> visited@.contains(w)
                    || to_visit@.contains(w),
            k == 0 ==> to_visit@ == base,
        decreases expansions.len() - k,
    {
        push_unvisited(visited, to_visit, &expansions[k].next, Ghost(start), Ghost(fresh_nodes[k as int]));
        k += 1;
    }
    proof {
        assert forall|v: N| #[trigger] visited@.contains(v) implies !satisfies(*pred, v) by {
            if !visited0.contains(v) {
                let i = choose|i: int| 0 <= i < fresh_nodes.len() && fresh_nodes[i] == v;
                assert(expansions[i].matched == satisfies(*pred, fresh_nodes[i]));
            }
        }
        assert forall|w: N| to_visit0.contains(w) implies visited@.contains(w) || to_visit@.contains(w) by {
            let j = choose|j: int| 0 <= j < to_visit0.len() && to_visit0[j] == w;
            if j < base.len() {
                assert(base[j] == w);
                assert(base.contains(w));
            } else {
                assert(visited1.contains(to_visit0[j]));
            }
        }
        assert forall|v: N, w: N|
            visited@.contains(v) && #[trigger] v.spec_outgoing().contains(w) implies visited@.contains(w)
                || to_visit@.contains(w) by {
            if !visited0.contains(v) {
                let i = choose|i: int| 0 <= i < fresh_nodes.len() && fresh_nodes[i] == v;
                assert(fresh_nodes[i].spec_outgoing().contains(w));
            } else {
                assert(visited0.contains(w) || to_visit0.contains(w));
            }
        }
        if fresh_nodes.len() > 0 {
            assert(visited@.contains(fresh_nodes[0]));
            vstd::set_lib::lemma_len_subset(visited0.insert(fresh_nodes[0]), visited@);
        } else {
            assert(visited@ =~= visited0);
        }
    }
    (None, Ghost(fresh_nodes))
}

impl<N: Node + Copy + Eq + Hash + Send + Sync> ParallelDFS<N> {
    /// Search, with `workers` workers, the nodes reachable from the start node
    /// for one that satisfies `pred`. No worker count changes whether a node
    /// is found; a count of zero counts as one.
    pub fn search_with_workers<I, P: Fn(I) -> bool + Sync>(&self, pred: P, workers: usize) -> (r:
        Option<N>) where N: AsValue<I>
        requires
            can_search::<I, N, P>(self.spec_start(), pred),
        ensures
            is_search_answer::<I, N, P>(self.spec_start(), pred, r),
            satisfies(pred, self.spec_start()) ==> r == Some(self.spec_start()),
    {
        self.search_with_workers_traced(pred, workers).0
    }

    /// [`ParallelDFS::search_with_workers`], which also gives, as a ghost
    /// value, the nodes whose outgoing neighbours its workers generated: no
    /// node twice, whatever the worker count, and every reachable node when
    /// nothing is found.
    pub fn search_with_workers_traced<I, P: Fn(I) -> bool + Sync>(&self, pred: P, workers: usize) -> (r: (
        Option<N>,
        Ghost<Seq<N>>,
    )) where N: AsValue<I>
        requires
            can_search::<I, N, P>(self.spec_start(), pred),
        ensures
            is_search_answer::<I, N, P>(self.spec_start(), pred, r.0),
            satisfies(pred, self.spec_start()) ==> r.0 == Some(self.spec_start()),
            is_expansion_log(self.spec_start(), r.1@, r.0 is None),
    {
        let workers = if workers == 0 {
            1
        } else {
            workers
        };
        let start = self.node;
        let mut visited: HashSet<N> = HashSet::new();
        let mut to_visit: Vec<N> = Vec::new();
        to_visit.push(start);
        proof {
            lemma_reachable_start(start);
            assert(to_visit@[0] == start);
            assert(to_visit@ =~= Seq::<N>::empty().push(start));
        }
        let ghost mut log: Seq<N> = Seq::empty();
        proof {
            assert(Seq::<N>::empty().to_set() =~= Set::<N>::empty());
            assert(visited@ =~= Set::<N>::empty().union(log.to_set()));
        }
        while to_visit.len() > 0
            invariant
                self.spec_start() == start,
                can_search(start, pred),
                is_frontier(start, pred, visited@, to_visit@),
                expanded_once(Set::empty(), visited@, log),
                satisfies(pred, start) ==> to_visit@ == Seq::<N>::empty().push(start) && visited@
                    == Set::<N>::empty(),
                workers > 0,
            decreases reachable_set(start).len() - visited@.len(), to_visit.len(),
        {
            proof {
                vstd::set_lib::lemma_len_subset(visited@, reachable_set(start));
            }
            let ghost visited0 = visited@;
            let (found, Ghost(expanded)) = if to_visit.len() < workers {
                next_until(&mut visited, &mut to_visit, BATCH_THRESHOLD, &pred, Ghost(start))
            } else {
                parallel_round(&mut visited, &mut to_visit, workers, &pred, Ghost(start))
            };
            proof {
                lemma_expanded_once_trans(Set::empty(), visited0, visited@, log, expanded);
                log = log + expanded;
            }
            if found.is_some() {
                proof {
                    lemma_log_of_visited(start, visited@, log);
                }
                return (found, Ghost(log));
            }
            proof {
                vstd::set_lib::lemma_len_subset(visited@, reachable_set(start));
            }
        }
        proof {
            assert(is_closed(visited@));
            lemma_closed_holds_reachable(start, visited@);
            assert forall|n: N| reachable(start, n) implies !#[trigger] satisfies(pred, n) by {
                assert(visited@.contains(n));
            }
            lemma_log_of_visited(start, visited@, log);
            assert forall|n: N| reachable(start, n) implies #[trigger] log.contains(n) by {
                assert(visited@.contains(n));
                assert(log.to_set().contains(n));
            }
        }
        (None, Ghost(log))
    }

    /// Search the nodes reachable from the start node for one that satisfies
    /// `pred`, with one worker per thread of the current pool.
    pub fn search<I, P: Fn(I) -> bool + Sync>(&self, pred: P) -> (r: Option<N>) where N: AsValue<I>
        requires
            can_search::<I, N, P>(self.spec_start(), pred),
        ensures
            is_search_answer::<I, N, P>(self.spec_start(), pred, r),
            satisfies(pred, self.spec_start()) ==> r == Some(self.spec_start()),
    {
        let workers = current_num_threads();
        self.search_with_workers(pred, workers)
    }
}

impl<I, N, P> FindAny<I, P> for ParallelDFS<N> where
    N: Node + AsValue<I> + Copy + Eq + Hash + Send + Sync,
    P: Fn(I) -> bool + Sync,
 {
    open spec fn find_any_requires(&self, pred: P) -> bool {
        can_search(self.spec_start(), pred)
    }

    open spec fn find_any_ensures(&self, pred: P, r: Option<N>) -> bool {
        is_search_answer(self.spec_start(), pred, r)
    }

    fn find_any(&self, pred: P) -> (r: Option<N>) {
        self.search(pred)
    }
}

impl<I, N, P> Contains<I, P> for ParallelDFS<N> where
    N: Node + AsValue<I> + Copy + Eq + Hash + Send + Sync,
    P: Fn(I) -> bool + Sync,
 {
    open spec fn contains_requires(&self, pred: P) -> bool {
        can_search(self.spec_start(), pred)
    }

    open spec fn spec_contains(&self, pred: P) -> bool {
        some_reachable_satisfies(self.spec_start(), pred)
    }

    fn contains(&self, pred: P) -> (r: bool) {
        let found = self.search(pred);
        proof {
            if let Some(n) = found {
                assert(satisfies(pred, n));
            }
        }
        found.is_some()
    }
}

/// The sequential and the parallel search agree: from one start node, with
/// one predicate, an answer of `DFS` and an answer of `ParallelDFS` both find
/// a node or both find none.
pub proof fn lemma_sequential_and_parallel_agree<I, N, P>(
    sequential: DFS<N>,
    parallel: ParallelDFS<N>,
    pred: P,
    r1: Option<N>,
    r2: Option<N>,
) where N: Node + AsValue<I>, P: Fn(I) -> bool
    requires
        sequential.spec_start() == parallel.spec_start(),
        is_search_answer(sequential.spec_start(), pred, r1),
        is_search_answer(parallel.spec_start(), pred, r2),
    ensures
        r1.is_some() == r2.is_some(),
{
    lemma_search_answers_agree(sequential.spec_start(), pred, r1, r2);
}

/// The worker count does not decide whether the parallel search finds a
/// node: two answers of one engine with one predicate, whatever the counts
/// they ran with, both find a node or both find none, and a node found is
/// reachable and satisfies the predicate.
pub proof fn lemma_worker_count_invariance<I, N, P>(
    engine: ParallelDFS<N>,
    pred: P,
    r1: Option<N>,
    r2: Option<N>,
) where N: Node + AsValue<I>, P: Fn(I) -> bool
    requires
        is_search_answer(engine.spec_start(), pred, r1),
        is_search_answer(engine.spec_start(), pred, r2),
    ensures
        r1.is_some() == r2.is_some(),
        r1.is_some() ==> reachable(engine.spec_start(), r1.unwrap()) && satisfies(pred, r1.unwrap()),
        r2.is_some() ==> reachable(engine.spec_start(), r2.unwrap()) && satisfies(pred, r2.unwrap()),
{
    lemma_search_answers_agree(engine.spec_start(), pred, r1, r2);
}

} // verus!
