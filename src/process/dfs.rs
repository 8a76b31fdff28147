//! A sequential depth-first search.
use vstd::prelude::*;

use std::collections::HashSet;
use std::hash::Hash;

use crate::process::frontier::{
    expanded_once, is_frontier, lemma_expanded_once_trans, lemma_log_of_visited, step, unvisited,
};
use crate::process::{Contains, FindAny, Process};
use crate::walk::{
    can_search, is_closed, is_expansion_log, is_search_answer, lemma_closed_holds_reachable, lemma_reachable_start,
    reachable, reachable_set, satisfies, some_reachable_satisfies,
};
use crate::{AsValue, Node};

verus! {

/// Where at most `fuel` steps of the depth-first search lead from the visited
/// set `visited` and the stack `to_visit`: `Some(answer)` when the search has
/// ended by then, `None` when it has not.
///
/// A step pops the top of the stack and tests it. A node that satisfies
/// `pred` ends the search. A node seen for the first time joins the visited
/// set, and its outgoing neighbours that are not visited are pushed in the
/// order they are produced, so that the last of them is popped first. An
/// empty stack ends the search with nothing found.
pub open spec fn dfs_outcome<I, N: Node + AsValue<I>, P: Fn(I) -> bool>(
    pred: P,
    visited: Set<N>,
    to_visit: Seq<N>,
    fuel: nat,
) -> Option<Option<N>>
    decreases fuel,
{
    if to_visit.len() == 0 {
        Some(None)
    } else if fuel == 0 {
        None
    } else {
        let n = to_visit.last();
        let rest = to_visit.drop_last();
        if satisfies(pred, n) {
            Some(Some(n))
        } else if visited.contains(n) {
            dfs_outcome(pred, visited, rest, (fuel - 1) as nat)
        } else {
            let v = visited.insert(n);
            dfs_outcome(pred, v, rest + unvisited(n.spec_outgoing(), v), (fuel - 1) as nat)
        }
    }
}

/// The answer of the depth-first search from `start`: the outcome of some
/// number of steps after which the search has ended.
pub open spec fn is_dfs_answer<I, N: Node + AsValue<I>, P: Fn(I) -> bool>(
    start: N,
    pred: P,
    r: Option<N>,
) -> bool {
    exists|k: nat| #[trigger] dfs_outcome(pred, Set::empty(), Seq::empty().push(start), k) == Some(r)
}

/// An ended search stays ended on its answer, whatever fuel is added.
proof fn lemma_dfs_outcome_more_fuel<I, N: Node + AsValue<I>, P: Fn(I) -> bool>(
    pred: P,
    visited: Set<N>,
    to_visit: Seq<N>,
    k: nat,
    j: nat,
)
    requires
        dfs_outcome(pred, visited, to_visit, k) is Some,
    ensures
        dfs_outcome(pred, visited, to_visit, k + j) == dfs_outcome(pred, visited, to_visit, k),
    decreases k,
{
    if to_visit.len() > 0 && k > 0 {
        let n = to_visit.last();
        let rest = to_visit.drop_last();
        if satisfies(pred, n) {
        } else if visited.contains(n) {
            lemma_dfs_outcome_more_fuel(pred, visited, rest, (k - 1) as nat, j);
            assert((k + j - 1) as nat == ((k - 1) as nat + j) as nat);
        } else {
            let v = visited.insert(n);
            lemma_dfs_outcome_more_fuel(pred, v, rest + unvisited(n.spec_outgoing(), v), (k - 1) as nat, j);
            assert((k + j - 1) as nat == ((k - 1) as nat + j) as nat);
        }
    }
}

/// The depth-first search has one answer: two answers of `DFS::search` from
/// one start node with one predicate are the same node, or both nothing.
pub proof fn lemma_dfs_answer_unique<I, N: Node + AsValue<I>, P: Fn(I) -> bool>(
    start: N,
    pred: P,
    r1: Option<N>,
    r2: Option<N>,
)
    requires
        is_dfs_answer(start, pred, r1),
        is_dfs_answer(start, pred, r2),
    ensures
        r1 == r2,
{
    let s = Seq::empty().push(start);
    let k1 = choose|k: nat| #[trigger] dfs_outcome(pred, Set::empty(), s, k) == Some(r1);
    let k2 = choose|k: nat| #[trigger] dfs_outcome(pred, Set::empty(), s, k) == Some(r2);
    if k1 <= k2 {
        lemma_dfs_outcome_more_fuel(pred, Set::empty(), s, k1, (k2 - k1) as nat);
    } else {
        lemma_dfs_outcome_more_fuel(pred, Set::empty(), s, k2, (k1 - k2) as nat);
    }
}

/// A depth-first search from a start node, run on the calling thread.
///
/// The frontier is a stack. A node is tested when it leaves the stack; the
/// first time it is seen, it joins the visited set and its outgoing
/// neighbours that are not visited are pushed. The visited set makes sure
/// that each node has its neighbours generated at most once.
pub struct DFS<N> {
    node: N,
}

impl<N: Node> Process for DFS<N> {
    type Node = N;

    closed spec fn spec_start(&self) -> N {
        self.node
    }

    fn from_node(node: N) -> (r: Self) {
        DFS { node }
    }
}

impl<N: Node + Copy + Eq + Hash> DFS<N> {
    /// Search the nodes reachable from the start node for one that satisfies
    /// `pred`.
    ///
    /// A node is tested when it leaves the stack; when it is seen for the
    /// first time, its outgoing neighbours that are not yet visited are pushed.
    pub fn search<I, P: Fn(I) -> bool>(&self, pred: P) -> (r: Option<N>) where N: AsValue<I>
        requires
            can_search::<I, N, P>(self.spec_start(), pred),
        ensures
            is_search_answer::<I, N, P>(self.spec_start(), pred, r),
            satisfies(pred, self.spec_start()) ==> r == Some(self.spec_start()),
            is_dfs_answer::<I, N, P>(self.spec_start(), pred, r),
    {
        self.search_traced(pred).0
    }

    /// [`DFS::search`], which also gives, as a ghost value, the nodes whose
    /// outgoing neighbours it generated: no node twice, and every reachable
    /// node when nothing is found.
    pub fn search_traced<I, P: Fn(I) -> bool>(&self, pred: P) -> (r: (Option<N>, Ghost<Seq<N>>)) where N: AsValue<I>
        requires
            can_search::<I, N, P>(self.spec_start(), pred),
        ensures
            is_search_answer::<I, N, P>(self.spec_start(), pred, r.0),
            satisfies(pred, self.spec_start()) ==> r.0 == Some(self.spec_start()),
            is_expansion_log(self.spec_start(), r.1@, r.0 is None),
            is_dfs_answer::<I, N, P>(self.spec_start(), pred, r.0),
    {
        let start = self.node;
        let mut visited: HashSet<N> = HashSet::new();
        let mut to_visit: Vec<N> = Vec::new();
        to_visit.push(start);
        let ghost mut log: Seq<N> = Seq::empty();
        let ghost mut steps: nat = 0;
        proof {
            lemma_reachable_start(start);
            assert(to_visit@[0] == start);
            assert(to_visit@ =~= Seq::<N>::empty().push(start));
            assert(visited@ =~= Set::<N>::empty().union(log.to_set()));
        }
        while to_visit.len() > 0
            invariant
                self.spec_start() == start,
                can_search(start, pred),
                is_frontier(start, pred, visited@, to_visit@),
                expanded_once(Set::empty(), visited@, log),
                satisfies(pred, start) ==> to_visit@ == Seq::<N>::empty().push(start),
                forall|fuel: nat|
                    dfs_outcome(pred, Set::empty(), Seq::empty().push(start), steps + fuel)
                        == #[trigger] dfs_outcome(pred, visited@, to_visit@, fuel),
            decreases reachable_set(start).len() - visited@.len(), to_visit.len(),
        {
            proof {
                vstd::set_lib::lemma_len_subset(visited@, reachable_set(start));
            }
            let ghost visited0 = visited@;
            let ghost to_visit0 = to_visit@;
            let (found, Ghost(expanded)) = step(&mut visited, &mut to_visit, &pred, Ghost(start));
            proof {
                lemma_expanded_once_trans(Set::empty(), visited0, visited@, log, expanded);
                log = log + expanded;
                assert(dfs_outcome(pred, Set::empty(), Seq::empty().push(start), steps + 1)
                    == dfs_outcome(pred, visited0, to_visit0, 0 + 1));
            }
            if found.is_some() {
                proof {
                    lemma_log_of_visited(start, visited@, log);
                }
                return (found, Ghost(log));
            }
            proof {
                assert forall|fuel: nat|
                    dfs_outcome(pred, Set::empty(), Seq::empty().push(start), (steps + 1) + fuel)
                        == #[trigger] dfs_outcome(pred, visited@, to_visit@, fuel) by {
                    assert(dfs_outcome(pred, Set::empty(), Seq::empty().push(start), steps + (fuel + 1))
                        == dfs_outcome(pred, visited0, to_visit0, fuel + 1));
                    assert((steps + 1) + fuel == steps + (fuel + 1));
                }
                steps = steps + 1;
            }
            proof {
                vstd::set_lib::lemma_len_subset(visited@, reachable_set(start));
            }
        }
        proof {
            assert(is_closed(visited@));
            lemma_closed_holds_reachable(start, visited@);
            assert forall|n: N| reachable(start, n) implies !#[trigger] satisfies(pred, n) by {
                assert(visited@.contains(n));
            }
            lemma_log_of_visited(start, visited@, log);
            assert(dfs_outcome(pred, Set::empty(), Seq::empty().push(start), steps + 0)
                == dfs_outcome(pred, visited@, to_visit@, 0));
            assert forall|n: N| reachable(start, n) implies #[trigger] log.contains(n) by {
                assert(visited@.contains(n));
                assert(log.to_set().contains(n));
            }
        }
        (None, Ghost(log))
    }
}

impl<I, N, P> FindAny<I, P> for DFS<N> where
    N: Node + AsValue<I> + Copy + Eq + Hash,
    P: Fn(I) -> bool,
 {
    open spec fn find_any_requires(&self, pred: P) -> bool {
        can_search(self.spec_start(), pred)
    }

    open spec fn find_any_ensures(&self, pred: P, r: Option<N>) -> bool {
        is_search_answer(self.spec_start(), pred, r)
    }

    fn find_any(&self, pred: P) -> (r: Option<N>) {
        self.search(pred)
    }
}

impl<I, N, P> Contains<I, P> for DFS<N> where
    N: Node + AsValue<I> + Copy + Eq + Hash,
    P: Fn(I) -> bool,
 {
    open spec fn contains_requires(&self, pred: P) -> bool {
        can_search(self.spec_start(), pred)
    }

    open spec fn spec_contains(&self, pred: P) -> bool {
        some_reachable_satisfies(self.spec_start(), pred)
    }

    fn contains(&self, pred: P) -> (r: bool) {
        let found = self.search(pred);
        proof {
            if let Some(n) = found {
                assert(satisfies(pred, n));
            }
        }
        found.is_some()
    }
}

} // verus!
