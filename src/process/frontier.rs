//! The frontier of a depth-first search: the stack of nodes waiting to be
//! handled and the set of nodes already visited, and the step that pops,
//! tests and expands one node.
use vstd::prelude::*;

use std::collections::HashSet;
use std::hash::Hash;

use crate::walk::{
    can_search, lemma_answer, lemma_reachable_step, reachable, reachable_set, satisfies,
};
use crate::process::dfs::dfs_outcome;
use crate::{AsValue, Node};

verus! {

/// The frontier and the visited set of a search from `start` are consistent:
/// everything is reachable, no visited node satisfies `pred`, the neighbours
/// of visited nodes are visited or waiting, and `start` is one or the other.
pub open spec fn is_frontier<I, N: Node + AsValue<I>, P: Fn(I) -> bool>(
    start: N,
    pred: P,
    visited: Set<N>,
    to_visit: Seq<N>,
) -> bool {
    &&& visited.finite()
    &&& visited.subset_of(reachable_set(start))
    &&& forall|i: int| 0 <= i < to_visit.len() ==> reachable(start, #[trigger] to_visit[i])
    &&& forall|v: N| #[trigger] visited.contains(v) ==> !satisfies(pred, v)
    &&& forall|v: N, w: N|
        visited.contains(v) && #[trigger] v.spec_outgoing().contains(w) ==> visited.contains(w)
            || to_visit.contains(w)
    &&& visited.contains(start) || to_visit.contains(start)
}

/// The search has moved forward: more nodes are visited, or as many and fewer
/// wait.
pub open spec fn advanced<N>(visited: Set<N>, to_visit: Seq<N>, visited0: Set<N>, to_visit0: Seq<N>) -> bool {
    visited0.subset_of(visited) && (visited.len() > visited0.len() || (visited.len()
        == visited0.len() && to_visit.len() < to_visit0.len()))
}

pub(crate) proof fn lemma_advanced_trans<N>(
    v1: Set<N>,
    s1: Seq<N>,
    v2: Set<N>,
    s2: Seq<N>,
    v3: Set<N>,
    s3: Seq<N>,
)
    requires
        v1.finite(),
        v2.finite(),
        advanced(v2, s2, v1, s1),
        advanced(v3, s3, v2, s2),
    ensures
        advanced(v3, s3, v1, s1),
{
}

/// `expanded` lists, once each, the nodes whose neighbours were generated
/// while the visited set grew from `before` to `after`: exactly the nodes
/// that were added to it. A node is added at most once, so over a whole
/// search no node has its neighbours generated twice.
pub open spec fn expanded_once<N>(before: Set<N>, after: Set<N>, expanded: Seq<N>) -> bool {
    &&& expanded.no_duplicates()
    &&& forall|i: int| 0 <= i < expanded.len() ==> !before.contains(#[trigger] expanded[i])
    &&& after == before.union(expanded.to_set())
}

pub(crate) proof fn lemma_expanded_once_trans<N>(
    v0: Set<N>,
    v1: Set<N>,
    v2: Set<N>,
    e1: Seq<N>,
    e2: Seq<N>,
)
    requires
        expanded_once(v0, v1, e1),
        expanded_once(v1, v2, e2),
    ensures
        expanded_once(v0, v2, e1 + e2),
{
    let e = e1 + e2;
    assert forall|i: int, j: int| 0 <= i < j < e.len() implies e[i] != e[j] by {
        if j >= e1.len() && i < e1.len() {
            assert(e1.to_set().contains(e1[i]));
            assert(!v1.contains(e2[j - e1.len()]));
        } else if i >= e1.len() {
            assert(e2[i - e1.len()] != e2[j - e1.len()]);
        } else {
            assert(e1[i] != e1[j]);
        }
    }
    assert forall|i: int| 0 <= i < e.len() implies !v0.contains(#[trigger] e[i]) by {
        if i >= e1.len() {
            assert(!v1.contains(e2[i - e1.len()]));
        } else {
            assert(!v0.contains(e1[i]));
        }
    }
    assert forall|x: N| v2.contains(x) <==> v0.union(e.to_set()).contains(x) by {
        if e1.to_set().contains(x) {
            let i = choose|i: int| 0 <= i < e1.len() && e1[i] == x;
            assert(e[i] == x);
        }
        if e2.to_set().contains(x) {
            let i = choose|i: int| 0 <= i < e2.len() && e2[i] == x;
            assert(e[i + e1.len()] == x);
        }
        if e.to_set().contains(x) {
            let i = choose|i: int| 0 <= i < e.len() && e[i] == x;
            if i < e1.len() {
                assert(e1[i] == x);
            } else {
                assert(e2[i - e1.len()] == x);
            }
        }
    }
    assert(v2 =~= v0.union(e.to_set()));
}

pub(crate) proof fn lemma_expanded_one<N>(v: Set<N>, node: N)
    requires
        !v.contains(node),
    ensures
        expanded_once(v, v.insert(node), Seq::<N>::empty().push(node)),
{
    let e = Seq::<N>::empty().push(node);
    assert(e[0] == node);
    assert forall|x: N| e.to_set().contains(x) <==> x == node by {
        if e.to_set().contains(x) {
            let i = choose|i: int| 0 <= i < e.len() && e[i] == x;
        }
        if x == node {
            assert(e.contains(node));
        }
    }
    assert(v.insert(node) =~= v.union(e.to_set()));
}

/// A log of the whole search lists each visited node once, and only those.
pub(crate) proof fn lemma_log_of_visited<N: Node>(start: N, visited: Set<N>, log: Seq<N>)
    requires
        expanded_once(Set::empty(), visited, log),
        visited.subset_of(reachable_set(start)),
    ensures
        log.no_duplicates(),
        log.to_set() == visited,
        forall|i: int| 0 <= i < log.len() ==> reachable(start, #[trigger] log[i]),
{
    assert(log.to_set() =~= visited);
    assert forall|i: int| 0 <= i < log.len() implies reachable(start, #[trigger] log[i]) by {
        assert(log.to_set().contains(log[i]));
    }
}

pub(crate) proof fn lemma_expanded_none<N>(v: Set<N>)
    ensures
        expanded_once(v, v, Seq::<N>::empty()),
{
    assert(v.union(Seq::<N>::empty().to_set()) =~= v);
}

/// The neighbours `next` that `visited` does not hold, in order: what a step
/// pushes.
pub open spec fn unvisited<N>(next: Seq<N>, visited: Set<N>) -> Seq<N> {
    next.filter(|m: N| !visited.contains(m))
}

proof fn lemma_unvisited_take<N>(next: Seq<N>, visited: Set<N>, i: int)
    requires
        0 <= i < next.len(),
    ensures
        unvisited(next.take(i + 1), visited) == if visited.contains(next[i]) {
            unvisited(next.take(i), visited)
        } else {
            unvisited(next.take(i), visited).push(next[i])
        },
{
    let t = next.take(i + 1);
    let p = |m: N| !visited.contains(m);
    reveal(Seq::filter);
    assert(t.drop_last() =~= next.take(i));
    assert(t.last() == next[i]);
    assert(unvisited(t, visited) == t.filter(p));
    assert(unvisited(next.take(i), visited) == next.take(i).filter(p));
    assert(t.filter(p) == if p(t.last()) {
        t.drop_last().filter(p).push(t.last())
    } else {
        t.drop_last().filter(p)
    });
}

/// Push onto `to_visit` the nodes of `next` that are not visited.
pub(crate) fn push_unvisited<N: Node + Copy + Eq + Hash>(
    visited: &HashSet<N>,
    to_visit: &mut Vec<N>,
    next: &Vec<N>,
    Ghost(start): Ghost<N>,
    Ghost(from): Ghost<N>,
)
    requires
        vstd::std_specs::hash::obeys_key_model::<N>(),
        reachable(start, from),
        next@ == from.spec_outgoing(),
        forall|i: int| 0 <= i < old(to_visit).len() ==> reachable(start, #[trigger] old(to_visit)@[i]),
    ensures
        final(to_visit)@ == old(to_visit)@ + unvisited(next@, visited@),
        forall|w: N| old(to_visit)@.contains(w) ==> final(to_visit)@.contains(w),
        forall|i: int| 0 <= i < final(to_visit).len() ==> reachable(start, #[trigger] final(to_visit)@[i]),
        forall|w: N|
            #[trigger] from.spec_outgoing().contains(w) ==> visited@.contains(w) || final(to_visit)@.contains(w),
{
    let ghost base = to_visit@;
    let mut i: usize = 0;
    while i < next.len()
        invariant
            vstd::std_specs::hash::obeys_key_model::<N>(),
            reachable(start, from),
            next@ == from.spec_outgoing(),
            0 <= i <= next.len(),
            forall|w: N| base.contains(w) ==> to_visit@.contains(w),
            forall|k: int| 0 <= k < to_visit.len() ==> reachable(start, #[trigger] to_visit@[k]),
            forall|j: int|
                0 <= j < i ==> visited@.contains(#[trigger] next@[j]) || to_visit@.contains(next@[j]),
            to_visit@ == base + unvisited(next@.take(i as int), visited@),
        decreases next.len() - i,
    {
        let m = next[i];
        proof {
            lemma_unvisited_take(next@, visited@, i as int);
        }
        if !visited.contains(&m) {
            proof {
                assert(from.spec_outgoing()[i as int] == m);
                lemma_reachable_step(start, from, m);
            }
            let ghost pre = to_visit@;
            to_visit.push(m);
            proof {
                assert forall|w: N| pre.contains(w) implies to_visit@.contains(w) by {
                    let j = choose|j: int| 0 <= j < pre.len() && pre[j] == w;
                    assert(to_visit@[j] == w);
                }
                assert(to_visit@[to_visit.len() - 1] == m);
                assert(to_visit@ =~= base + unvisited(next@.take(i + 1), visited@));
            }
        } else {
            proof {
                assert(to_visit@ =~= base + unvisited(next@.take(i + 1), visited@));
            }
        }
        i += 1;
    }
    proof {
        assert(next@.take(next.len() as int) =~= next@);
        assert forall|w: N| #[trigger] from.spec_outgoing().contains(w) implies visited@.contains(w)
            || to_visit@.contains(w) by {
            let j = choose|j: int| 0 <= j < next@.len() && next@[j] == w;
            assert(visited@.contains(next@[j]) || to_visit@.contains(next@[j]));
        }
    }
}

/// Pop one node and handle it: test it, and expand it if it is new.
pub(crate) fn step<I, N: Node + AsValue<I> + Copy + Eq + Hash, P: Fn(I) -> bool>(
    visited: &mut HashSet<N>,
    to_visit: &mut Vec<N>,
    pred: &P,
    Ghost(start): Ghost<N>,
) -> (r: (Option<N>, Ghost<Seq<N>>))
    requires
        can_search(start, *pred),
        is_frontier(start, *pred, old(visited)@, old(to_visit)@),
        old(to_visit).len() > 0,
    ensures
        expanded_once(old(visited)@, final(visited)@, r.1@),
        final(visited)@.subset_of(reachable_set(start)),
        r.0 == Some(old(to_visit)@.last()) <==> satisfies(*pred, old(to_visit)@.last()),
        r.0 is Some ==> r.0 == Some(old(to_visit)@.last()),
        forall|fuel: nat|
            #[trigger] dfs_outcome(*pred, old(visited)@, old(to_visit)@, fuel + 1) == if r.0 is Some {
                Some(r.0)
            } else {
                dfs_outcome(*pred, final(visited)@, final(to_visit)@, fuel)
            },
        match r.0 {
            Some(n) => reachable(start, n) && satisfies(*pred, n),
            None => is_frontier(start, *pred, final(visited)@, final(to_visit)@) && advanced(
                final(visited)@,
                final(to_visit)@,
                old(visited)@,
                old(to_visit)@,
            ),
        },
{
    let ghost before = to_visit@;
    let ghost visited_before = visited@;
    let node = to_visit.pop().unwrap();
    proof {
        assert(before == to_visit@.push(node));
        assert forall|w: N| before.contains(w) && w != node implies to_visit@.contains(w) by {
            let j = choose|j: int| 0 <= j < before.len() && before[j] == w;
            assert(to_visit@[j] == w);
        }
        assert(reachable(start, before[before.len() - 1]));
    }
    let found = pred(<N as AsValue<I>>::as_value(node));
    proof {
        lemma_answer(*pred, node.spec_as_value(), found);
    }
    if found {
        proof {
            lemma_expanded_none(visited@);
        }
        return (Some(node), Ghost(Seq::empty()));
    }
    if visited.insert(node) {
        let next = node.outgoing();
        push_unvisited(visited, to_visit, &next, Ghost(start), Ghost(node));
        proof {
            assert(visited@.len() == visited_before.len() + 1);
            assert(reachable_set(start).contains(node));
            lemma_expanded_one(visited_before, node);
        }
        (None, Ghost(Seq::empty().push(node)))
    } else {
        proof {
            assert(visited@ =~= visited_before);
            lemma_expanded_none(visited@);
        }
        (None, Ghost(Seq::empty()))
    }
}

} // verus!
