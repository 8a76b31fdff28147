//! The mathematical model of searches: predicates, walks, reachability and
//! shortest distances, with the lemmas the engines are proved from.
use vstd::prelude::*;

use crate::{AsValue, Node, Weighted};

verus! {

/// `pred` can be called on every value and always gives one answer per value.
pub open spec fn is_predicate<I, P: Fn(I) -> bool>(pred: P) -> bool {
    &&& forall|v: I| #[trigger] call_requires(pred, (v,))
    &&& forall|v: I, a: bool, b: bool|
        #[trigger] call_ensures(pred, (v,), a) && #[trigger] call_ensures(pred, (v,), b) ==> a == b
}

/// `node` satisfies `pred`: the predicate answers `true` on the node's value.
pub open spec fn satisfies<I, N: AsValue<I>, P: Fn(I) -> bool>(pred: P, node: N) -> bool {
    call_ensures(pred, (node.spec_as_value(),), true)
}

/// The answer of a predicate on a value is whether the value satisfies it.
pub proof fn lemma_answer<I, P: Fn(I) -> bool>(pred: P, v: I, b: bool)
    requires
        is_predicate(pred),
        call_ensures(pred, (v,), b),
    ensures
        b == call_ensures(pred, (v,), true),
{
    if call_ensures(pred, (v,), true) {
        assert(call_ensures(pred, (v,), b) && call_ensures(pred, (v,), true));
    }
}

/// A non-empty sequence of nodes, each an outgoing neighbour of the one before.
pub open spec fn is_walk<N: Node>(p: Seq<N>) -> bool {
    &&& p.len() > 0
    &&& forall|i: int| 0 <= i < p.len() - 1 ==> #[trigger] p[i].spec_outgoing().contains(p[i + 1])
}

/// There is a walk from `start` to `n`.
pub open spec fn reachable<N: Node>(start: N, n: N) -> bool {
    exists|p: Seq<N>| #[trigger] is_walk(p) && p[0] == start && p.last() == n
}

/// The nodes that can be reached from `start`.
pub open spec fn reachable_set<N: Node>(start: N) -> Set<N> {
    Set::new(|n: N| reachable(start, n))
}

/// No node of `s` has an outgoing neighbour outside `s`.
pub open spec fn is_closed<N: Node>(s: Set<N>) -> bool {
    forall|a: N, b: N| s.contains(a) && #[trigger] a.spec_outgoing().contains(b) ==> s.contains(b)
}

/// A node reaches itself.
pub proof fn lemma_reachable_start<N: Node>(start: N)
    ensures
        reachable(start, start),
{
    let p = seq![start];
    assert(is_walk(p));
}

/// A neighbour of a reachable node is reachable.
pub proof fn lemma_reachable_step<N: Node>(start: N, a: N, b: N)
    requires
        reachable(start, a),
        a.spec_outgoing().contains(b),
    ensures
        reachable(start, b),
{
    let p = choose|p: Seq<N>| #[trigger] is_walk(p) && p[0] == start && p.last() == a;
    let q = p.push(b);
    assert forall|i: int| 0 <= i < q.len() - 1 implies #[trigger] q[i].spec_outgoing().contains(
        q[i + 1],
    ) by {
        if i < p.len() - 1 {
            assert(p[i].spec_outgoing().contains(p[i + 1]));
        }
    }
    assert(is_walk(q));
}

proof fn lemma_walk_stays_in<N: Node>(p: Seq<N>, s: Set<N>)
    requires
        is_walk(p),
        s.contains(p[0]),
        is_closed(s),
    ensures
        s.contains(p.last()),
    decreases p.len(),
{
    if p.len() > 1 {
        let q = p.drop_last();
        assert(is_walk(q)) by {
            assert forall|i: int| 0 <= i < q.len() - 1 implies #[trigger] q[i].spec_outgoing().contains(
                q[i + 1],
            ) by {
                assert(p[i].spec_outgoing().contains(p[i + 1]));
            }
        }
        lemma_walk_stays_in(q, s);
        let i = p.len() - 2;
        assert(p[i].spec_outgoing().contains(p[i + 1]));
    }
}

/// A closed set that holds `start` holds every node reachable from it.
pub proof fn lemma_closed_holds_reachable<N: Node>(start: N, s: Set<N>)
    requires
        s.contains(start),
        is_closed(s),
    ensures
        forall|n: N| reachable(start, n) ==> s.contains(n),
{
    assert forall|n: N| reachable(start, n) implies s.contains(n) by {
        let p = choose|p: Seq<N>| #[trigger] is_walk(p) && p[0] == start && p.last() == n;
        lemma_walk_stays_in(p, s);
    }
}

} // verus!

verus! {

/// Some node reachable from `start` satisfies `pred`.
pub open spec fn some_reachable_satisfies<I, N: Node + AsValue<I>, P: Fn(I) -> bool>(
    start: N,
    pred: P,
) -> bool {
    exists|n: N| reachable(start, n) && #[trigger] satisfies(pred, n)
}

/// `r` answers a search from `start` for a node satisfying `pred`: a reachable
/// node that satisfies it, or nothing when no reachable node does.
pub open spec fn is_search_answer<I, N: Node + AsValue<I>, P: Fn(I) -> bool>(
    start: N,
    pred: P,
    r: Option<N>,
) -> bool {
    match r {
        Some(n) => reachable(start, n) && satisfies(pred, n),
        None => forall|n: N| reachable(start, n) ==> !#[trigger] satisfies(pred, n),
    }
}

/// What a search over the nodes reachable from `start` needs: a predicate,
/// node equality that agrees with identity, and finitely many reachable nodes.
pub open spec fn can_search<I, N: Node + AsValue<I>, P: Fn(I) -> bool>(start: N, pred: P) -> bool {
    &&& vstd::std_specs::hash::obeys_key_model::<N>()
    &&& is_predicate(pred)
    &&& reachable_set(start).finite()
}

} // verus!

verus! {

/// A non-empty sequence of edges, each leaving the node the one before
/// reached. The first entry only names the node the walk starts from.
pub open spec fn is_weighted_walk<N: Weighted>(p: Seq<(u64, N)>) -> bool {
    &&& p.len() > 0
    &&& forall|i: int|
        0 <= i < p.len() - 1 ==> #[trigger] p[i].1.spec_weighted_outgoing().contains(p[i + 1])
}

/// The total weight of the edges of a walk.
pub open spec fn walk_cost<N>(p: Seq<(u64, N)>) -> int
    decreases p.len(),
{
    if p.len() <= 1 {
        0
    } else {
        walk_cost(p.drop_last()) + p.last().0
    }
}

/// `p` is a walk from `start` to `n`.
pub open spec fn is_walk_between<N: Weighted>(start: N, n: N, p: Seq<(u64, N)>) -> bool {
    is_weighted_walk(p) && p[0].1 == start && p.last().1 == n
}

/// There is a walk from `start` to `n` along weighted edges.
pub open spec fn weighted_reachable<N: Weighted>(start: N, n: N) -> bool {
    exists|p: Seq<(u64, N)>| #[trigger] is_walk_between(start, n, p)
}

/// The nodes that can be reached from `start` along weighted edges.
pub open spec fn weighted_reachable_set<N: Weighted>(start: N) -> Set<N> {
    Set::new(|n: N| weighted_reachable(start, n))
}

/// `x`, or the largest `u64` where `x` is larger.
pub open spec fn capped(x: int) -> int {
    if x < u64::MAX {
        x
    } else {
        u64::MAX as int
    }
}

/// Some walk from `start` to `n` has the cost `d` (capped at the largest `u64`).
pub open spec fn is_walk_distance<N: Weighted>(start: N, n: N, d: u64) -> bool {
    exists|p: Seq<(u64, N)>| #[trigger] is_walk_between(start, n, p) && capped(walk_cost(p)) == d
}

/// `d` is the distance from `start` to `n`: the cost of a cheapest walk,
/// capped at the largest `u64`.
pub open spec fn is_shortest_distance<N: Weighted>(start: N, n: N, d: u64) -> bool {
    &&& is_walk_distance(start, n, d)
    &&& forall|p: Seq<(u64, N)>| #[trigger] is_walk_between(start, n, p) ==> d <= walk_cost(p)
}

/// `d` maps exactly the nodes reachable from `start`, each to its distance.
pub open spec fn is_distance_table<N: Weighted>(start: N, d: Map<N, u64>) -> bool {
    &&& forall|n: N| #[trigger] d.contains_key(n) <==> weighted_reachable(start, n)
    &&& forall|n: N| #[trigger] d.contains_key(n) ==> is_shortest_distance(start, n, d[n])
}

/// A node has at most one distance.
pub proof fn lemma_shortest_distance_unique<N: Weighted>(start: N, n: N, d1: u64, d2: u64)
    requires
        is_shortest_distance(start, n, d1),
        is_shortest_distance(start, n, d2),
    ensures
        d1 == d2,
{
    let p1 = choose|p: Seq<(u64, N)>| #[trigger] is_walk_between(start, n, p) && capped(walk_cost(p)) == d1;
    let p2 = choose|p: Seq<(u64, N)>| #[trigger] is_walk_between(start, n, p) && capped(walk_cost(p)) == d2;
    assert(d2 <= walk_cost(p1));
    assert(d1 <= walk_cost(p2));
}

/// The start node is at distance zero.
pub proof fn lemma_walk_distance_start<N: Weighted>(start: N)
    ensures
        is_walk_distance(start, start, 0),
{
    let p = seq![(0u64, start)];
    assert(is_walk_between(start, start, p));
    assert(walk_cost(p) == 0);
}

/// A walk to `v` followed by an edge of `v` is a walk to the edge's end.
pub proof fn lemma_walk_distance_step<N: Weighted>(start: N, v: N, dv: u64, e: (u64, N))
    requires
        is_walk_distance(start, v, dv),
        v.spec_weighted_outgoing().contains(e),
    ensures
        is_walk_distance(start, e.1, capped(dv + e.0) as u64),
{
    let p = choose|p: Seq<(u64, N)>| #[trigger] is_walk_between(start, v, p) && capped(walk_cost(p)) == dv;
    let q = p.push(e);
    assert forall|i: int| 0 <= i < q.len() - 1 implies #[trigger] q[i].1.spec_weighted_outgoing().contains(
        q[i + 1],
    ) by {
        if i < p.len() - 1 {
            assert(p[i].1.spec_weighted_outgoing().contains(p[i + 1]));
        }
    }
    assert(q.drop_last() == p);
    assert(is_walk_between(start, e.1, q));
    assert(walk_cost(q) == walk_cost(p) + e.0);
    lemma_walk_cost_nonneg(p);
}

proof fn lemma_walk_cost_nonneg<N>(p: Seq<(u64, N)>)
    ensures
        walk_cost(p) >= 0,
    decreases p.len(),
{
    if p.len() > 1 {
        lemma_walk_cost_nonneg(p.drop_last());
    }
}

/// A table that holds `start` at zero and does not improve along any edge
/// bounds the cost of every walk from `start`.
pub proof fn lemma_relaxed_table_bounds_walks<N: Weighted>(start: N, d: Map<N, u64>, p: Seq<(u64, N)>)
    requires
        d.contains_key(start),
        d[start] == 0,
        forall|v: N, e: (u64, N)|
            d.contains_key(v) && #[trigger] v.spec_weighted_outgoing().contains(e) ==> d.contains_key(e.1)
                && d[e.1] <= capped(d[v] + e.0),
        is_weighted_walk(p),
        p[0].1 == start,
    ensures
        d.contains_key(p.last().1),
        d[p.last().1] <= walk_cost(p),
    decreases p.len(),
{
    if p.len() > 1 {
        let q = p.drop_last();
        assert(is_weighted_walk(q)) by {
            assert forall|i: int| 0 <= i < q.len() - 1 implies #[trigger] q[i].1.spec_weighted_outgoing().contains(
                q[i + 1],
            ) by {
                assert(p[i].1.spec_weighted_outgoing().contains(p[i + 1]));
            }
        }
        lemma_relaxed_table_bounds_walks(start, d, q);
        let i = p.len() - 2;
        assert(p[i].1.spec_weighted_outgoing().contains(p[i + 1]));
    }
}

} // verus!

verus! {

/// The distance from `start` to `n`, where `n` is reachable.
pub open spec fn distance<N: Weighted>(start: N, n: N) -> u64 {
    choose|d: u64| is_shortest_distance(start, n, d)
}

/// What a weighted search needs: a predicate, node equality that agrees with
/// identity, and finitely many reachable nodes.
pub open spec fn can_search_weighted<I, N: Weighted + AsValue<I>, P: Fn(I) -> bool>(
    start: N,
    pred: P,
) -> bool {
    &&& vstd::std_specs::hash::obeys_key_model::<N>()
    &&& is_predicate(pred)
    &&& weighted_reachable_set(start).finite()
}

/// `r` answers a search from `start` for the nearest node satisfying `pred`:
/// a reachable node that satisfies it and is at no greater distance than any
/// other that does, or nothing when no reachable node satisfies it.
pub open spec fn is_nearest_answer<I, N: Weighted + AsValue<I>, P: Fn(I) -> bool>(
    start: N,
    pred: P,
    r: Option<N>,
) -> bool {
    match r {
        Some(n) => {
            &&& weighted_reachable(start, n)
            &&& satisfies(pred, n)
            &&& is_shortest_distance(start, n, distance(start, n))
            &&& forall|m: N|
                weighted_reachable(start, m) && #[trigger] satisfies(pred, m) ==> distance(start, n)
                    <= distance(start, m)
        },
        None => forall|m: N| weighted_reachable(start, m) ==> !#[trigger] satisfies(pred, m),
    }
}

/// Some node reachable from `start` along weighted edges satisfies `pred`.
pub open spec fn some_weighted_reachable_satisfies<I, N: Weighted + AsValue<I>, P: Fn(I) -> bool>(
    start: N,
    pred: P,
) -> bool {
    exists|n: N| weighted_reachable(start, n) && #[trigger] satisfies(pred, n)
}

/// The distance a table gives is the distance.
pub proof fn lemma_table_distance<N: Weighted>(start: N, d: Map<N, u64>, n: N)
    requires
        is_distance_table(start, d),
        d.contains_key(n),
    ensures
        distance(start, n) == d[n],
        is_shortest_distance(start, n, distance(start, n)),
{
    assert(is_shortest_distance(start, n, d[n]));
    lemma_shortest_distance_unique(start, n, distance(start, n), d[n]);
}

} // verus!

verus! {

/// Two answers to one search, from one start node with one predicate, agree
/// on whether a node is found.
pub proof fn lemma_search_answers_agree<I, N: Node + AsValue<I>, P: Fn(I) -> bool>(
    start: N,
    pred: P,
    r1: Option<N>,
    r2: Option<N>,
)
    requires
        is_search_answer(start, pred, r1),
        is_search_answer(start, pred, r2),
    ensures
        r1.is_some() == r2.is_some(),
{
    if let Some(n) = r1 {
        assert(satisfies(pred, n));
    }
    if let Some(n) = r2 {
        assert(satisfies(pred, n));
    }
}

/// Two distance tables of one start node are the same table.
pub proof fn lemma_distance_table_unique<N: Weighted>(start: N, d1: Map<N, u64>, d2: Map<N, u64>)
    requires
        is_distance_table(start, d1),
        is_distance_table(start, d2),
    ensures
        d1 == d2,
{
    assert forall|n: N| #[trigger] d1.contains_key(n) implies d2.contains_key(n) && d1[n] == d2[n] by {
        assert(weighted_reachable(start, n));
        assert(d2.contains_key(n));
        lemma_shortest_distance_unique(start, n, d1[n], d2[n]);
    }
    assert forall|n: N| #[trigger] d2.contains_key(n) implies d1.contains_key(n) by {
        assert(weighted_reachable(start, n));
    }
    assert(d1 =~= d2);
}

/// Two answers to one nearest-node search, from one start node with one
/// predicate, agree on whether a node is found, and the nodes found are at
/// one distance.
pub proof fn lemma_nearest_answers_agree<I, N: Weighted + AsValue<I>, P: Fn(I) -> bool>(
    start: N,
    pred: P,
    r1: Option<N>,
    r2: Option<N>,
)
    requires
        is_nearest_answer(start, pred, r1),
        is_nearest_answer(start, pred, r2),
    ensures
        r1.is_some() == r2.is_some(),
        r1.is_some() && r2.is_some() ==> distance(start, r1.unwrap()) == distance(start, r2.unwrap()),
{
    if let Some(n) = r1 {
        assert(satisfies(pred, n));
    }
    if let Some(n) = r2 {
        assert(satisfies(pred, n));
    }
}

} // verus!

verus! {

/// `expanded` lists the nodes whose outgoing neighbours a search from `start`
/// generated, in order: each node at most once, each reachable, and, when
/// the search was exhausted, every reachable node.
pub open spec fn is_expansion_log<N: Node>(start: N, expanded: Seq<N>, exhausted: bool) -> bool {
    &&& expanded.no_duplicates()
    &&& forall|i: int| 0 <= i < expanded.len() ==> reachable(start, #[trigger] expanded[i])
    &&& exhausted ==> forall|n: N| reachable(start, n) ==> #[trigger] expanded.contains(n)
}

} // verus!
