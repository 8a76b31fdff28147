//! A delta-stepping search for the nearest node on a weighted graph.
use vstd::prelude::*;

use std::collections::HashMap;
use std::hash::Hash;

use crate::parallel::{par_map, par_min};
use crate::process::{Contains, FindAny, FindFirst, Process};
use crate::walk::{
    can_search_weighted, capped, distance, is_distance_table, is_nearest_answer, is_predicate,
    is_shortest_distance, is_walk_between, is_walk_distance, lemma_answer,
    lemma_distance_table_unique, lemma_nearest_answers_agree, lemma_relaxed_table_bounds_walks,
    lemma_table_distance, lemma_walk_distance_start, lemma_walk_distance_step, satisfies,
    some_weighted_reachable_satisfies, walk_cost, weighted_reachable, weighted_reachable_set,
};
use crate::{AsValue, Weighted};

verus! {

/// A delta-stepping search from a start node over a graph whose edges carry
/// non-negative weights.
///
/// Nodes wait in buckets by tentative distance: a node at distance `d` waits
/// in bucket `d / delta`. The search takes the lowest non-empty bucket,
/// explores its nodes in parallel, relaxes their light edges (weight at most
/// `delta`) at once, which may refill the same bucket, and defers their heavy
/// edges until the bucket is empty. When no bucket is left, every reachable
/// node has its shortest distance. `delta` shapes the work, not the result.
///
/// An engine built by [`Process::from_node`] has a `delta` of zero, which
/// searches refuse: set it with [`DeltaStepping::with_delta`].
#[derive(Clone, Copy, Debug, Default, PartialEq, Eq, Hash)]
pub struct DeltaStepping<N> {
    base: N,
    delta: u64,
}

impl<N> Process for DeltaStepping<N> {
    type Node = N;

    closed spec fn spec_start(&self) -> N {
        self.base
    }

    fn from_node(node: N) -> (r: Self)
        ensures
            r.spec_delta() == 0,
    {
        DeltaStepping { base: node, delta: 0 }
    }
}

impl<N> DeltaStepping<N> {
    /// The bucket width.
    pub closed spec fn spec_delta(&self) -> u64 {
        self.delta
    }

    /// The same engine with the bucket width `delta`.
    pub fn with_delta(self, delta: u64) -> (r: Self)
        ensures
            r.spec_start() == self.spec_start(),
            r.spec_delta() == delta,
    {
        DeltaStepping { base: self.base, delta }
    }
}

/// Test `node` against `pred`.
fn test_node<I, N: AsValue<I> + Copy, P: Fn(I) -> bool>(node: N, pred: &P) -> (r: (N, bool))
    requires
        is_predicate(*pred),
    ensures
        r.0 == node,
        r.1 == satisfies(*pred, node),
{
    let matched = pred(<N as AsValue<I>>::as_value(node));
    proof {
        lemma_answer(*pred, node.spec_as_value(), matched);
    }
    (node, matched)
}

impl<N: Weighted + Copy + Eq + Hash + Send + Sync> DeltaStepping<N> {
    /// The shortest distance from the start node to each reachable node.
    pub fn distances(&self) -> (r: HashMap<N, u64>)
        requires
            vstd::std_specs::hash::obeys_key_model::<N>(),
            weighted_reachable_set(self.spec_start()).finite(),
            self.spec_delta() > 0,
        ensures
            is_distance_table(self.spec_start(), r@),
    {
        let t = Tables::settle(self.base, self.delta);
        t.dists
    }

    /// Search for a reachable node that satisfies `pred` at the least
    /// distance from the start node; ties are broken by the order in which
    /// nodes were found.
    ///
    /// The search runs to its end, then tests every node of the distance
    /// table in parallel and keeps a nearest match.
    pub fn nearest<I, P: Fn(I) -> bool + Sync>(&self, pred: P) -> (r: Option<N>) where N: AsValue<I>
        requires
            can_search_weighted::<I, N, P>(self.spec_start(), pred),
            self.spec_delta() > 0,
        ensures
            is_nearest_answer::<I, N, P>(self.spec_start(), pred, r),
    {
        let start = self.base;
        let t = Tables::settle(start, self.delta);
        let Tables { dists, order, buckets: _, indices: _ } = t;
        let ghost found = order@;
        let pg: Ghost<P> = Ghost(pred);
        let p = &pred;
        let test = |n: N| -> (r: (N, bool))
            requires
                is_predicate(pg@),
            ensures
                r.0 == n,
                r.1 == satisfies(pg@, n),
            { test_node(n, p) };
        let tests = par_map(order, test);
        proof {
            assert forall|j: int| 0 <= j < tests.len() implies (#[trigger] tests[j]).0 == found[j]
                && tests[j].1 == satisfies(pred, found[j]) by {
                assert(call_ensures(test, (found[j],), tests[j]));
            }
        }
        let mut best: Option<N> = None;
        let mut best_dist: u64 = 0;
        let mut j: usize = 0;
        while j < tests.len()
            invariant
                vstd::std_specs::hash::obeys_key_model::<N>(),
                tests.len() == found.len(),
                forall|k: int|
                    0 <= k < tests.len() ==> (#[trigger] tests[k]).0 == found[k] && tests[k].1
                        == satisfies(pred, found[k]),
                forall|k: int| 0 <= k < found.len() ==> dists@.contains_key(#[trigger] found[k]),
                0 <= j <= tests.len(),
                match best {
                    Some(b) => {
                        &&& dists@.contains_key(b)
                        &&& satisfies(pred, b)
                        &&& best_dist == dists@[b]
                        &&& forall|k: int|
                            0 <= k < j && (#[trigger] tests[k]).1 ==> best_dist <= dists@[found[k]]
                    },
                    None => forall|k: int| 0 <= k < j ==> !(#[trigger] tests[k]).1,
                },
            decreases tests.len() - j,
        {
            if tests[j].1 {
                let n = tests[j].0;
                let dn = match dists.get(&n) {
                    Some(dn) => *dn,
                    None => 0,
                };
                if best.is_none() || dn < best_dist {
                    best = Some(n);
                    best_dist = dn;
                }
            }
            j += 1;
        }
        proof {
            let d = dists@;
            match best {
                Some(b) => {
                    lemma_table_distance(start, d, b);
                    assert forall|m: N|
                        weighted_reachable(start, m) && #[trigger] satisfies(pred, m) implies distance(start, b)
                            <= distance(start, m) by {
                        assert(d.contains_key(m));
                        lemma_table_distance(start, d, m);
                        let k = choose|k: int| 0 <= k < found.len() && found[k] == m;
                        assert(tests[k].1);
                    }
                },
                None => {
                    assert forall|m: N| weighted_reachable(start, m) implies !#[trigger] satisfies(pred, m) by {
                        assert(d.contains_key(m));
                        let k = choose|k: int| 0 <= k < found.len() && found[k] == m;
                        assert(!tests[k].1);
                    }
                },
            }
        }
        best
    }
}

impl<I, N, P> FindFirst<I, P> for DeltaStepping<N> where
    N: Weighted + AsValue<I> + Copy + Eq + Hash + Send + Sync,
    P: Fn(I) -> bool + Sync,
 {
    open spec fn find_first_requires(&self, pred: P) -> bool {
        can_search_weighted(self.spec_start(), pred) && self.spec_delta() > 0
    }

    open spec fn find_first_ensures(&self, pred: P, r: Option<N>) -> bool {
        is_nearest_answer(self.spec_start(), pred, r)
    }

    fn find_first(&self, pred: P) -> (r: Option<N>) {
        self.nearest(pred)
    }
}

impl<I, N, P> FindAny<I, P> for DeltaStepping<N> where
    N: Weighted + AsValue<I> + Copy + Eq + Hash + Send + Sync,
    P: Fn(I) -> bool + Sync,
 {
    open spec fn find_any_requires(&self, pred: P) -> bool {
        can_search_weighted(self.spec_start(), pred) && self.spec_delta() > 0
    }

    open spec fn find_any_ensures(&self, pred: P, r: Option<N>) -> bool {
        is_nearest_answer(self.spec_start(), pred, r)
    }

    fn find_any(&self, pred: P) -> (r: Option<N>) {
        self.nearest(pred)
    }
}

impl<I, N, P> Contains<I, P> for DeltaStepping<N> where
    N: Weighted + AsValue<I> + Copy + Eq + Hash + Send + Sync,
    P: Fn(I) -> bool + Sync,
 {
    open spec fn contains_requires(&self, pred: P) -> bool {
        can_search_weighted(self.spec_start(), pred) && self.spec_delta() > 0
    }

    open spec fn spec_contains(&self, pred: P) -> bool {
        some_weighted_reachable_satisfies(self.spec_start(), pred)
    }

    fn contains(&self, pred: P) -> (r: bool) {
        let found = self.nearest(pred);
        proof {
            if let Some(n) = found {
                assert(satisfies(pred, n));
            }
        }
        found.is_some()
    }
}

/// The distance table does not depend on the bucket width: two engines from
/// one start node, whatever their `delta`, give the same table.
pub proof fn lemma_distances_delta_invariance<N: Weighted>(
    e1: DeltaStepping<N>,
    e2: DeltaStepping<N>,
    d1: Map<N, u64>,
    d2: Map<N, u64>,
)
    requires
        e1.spec_start() == e2.spec_start(),
        is_distance_table(e1.spec_start(), d1),
        is_distance_table(e2.spec_start(), d2),
    ensures
        d1 == d2,
{
    lemma_distance_table_unique(e1.spec_start(), d1, d2);
}

/// The node a nearest-node search picks is at a distance that does not
/// depend on the bucket width: two engines from one start node, whatever
/// their `delta`, with one predicate, both find a node or both find none, and
/// the nodes found are at one distance.
pub proof fn lemma_nearest_delta_invariance<I, N, P>(
    e1: DeltaStepping<N>,
    e2: DeltaStepping<N>,
    pred: P,
    r1: Option<N>,
    r2: Option<N>,
) where N: Weighted + AsValue<I>, P: Fn(I) -> bool
    requires
        e1.spec_start() == e2.spec_start(),
        is_nearest_answer(e1.spec_start(), pred, r1),
        is_nearest_answer(e2.spec_start(), pred, r2),
    ensures
        r1.is_some() == r2.is_some(),
        r1.is_some() && r2.is_some() ==> distance(e1.spec_start(), r1.unwrap()) == distance(
            e1.spec_start(),
            r2.unwrap(),
        ),
{
    lemma_nearest_answers_agree(e1.spec_start(), pred, r1, r2);
}

/// `v` waits in some bucket of `b`.
pub open spec fn in_buckets<N>(b: Map<u64, Vec<N>>, v: N) -> bool {
    exists|k: u64| b.contains_key(k) && #[trigger] b[k]@.contains(v)
}

/// Every entry of `b` is still in `b2`, under the same index.
pub open spec fn buckets_kept<N>(b: Map<u64, Vec<N>>, b2: Map<u64, Vec<N>>) -> bool {
    forall|k: u64, x: N|
        b.contains_key(k) && #[trigger] b[k]@.contains(x) ==> b2.contains_key(k) && b2[k]@.contains(x)
}

/// The edge `e` of `v` needs no more work: `v` is still to be explored (it
/// waits in `extra` or in a bucket), or the table already holds its end at
/// no more than through `v`, or a deferred edge will bring it there.
pub open spec fn edge_done<N: Weighted>(
    d: Map<N, u64>,
    b: Map<u64, Vec<N>>,
    extra: Seq<N>,
    heavy: Seq<(u64, N)>,
    v: N,
    e: (u64, N),
) -> bool {
    ||| extra.contains(v)
    ||| in_buckets(b, v)
    ||| d.contains_key(e.1) && d[e.1] <= capped(d[v] + e.0)
    ||| exists|j: int|
        0 <= j < heavy.len() && (#[trigger] heavy[j]).1 == e.1 && heavy[j].0 <= capped(d[v] + e.0)
}

/// Every edge of every node in the table needs no more work.
pub open spec fn all_done<N: Weighted>(
    d: Map<N, u64>,
    b: Map<u64, Vec<N>>,
    extra: Seq<N>,
    heavy: Seq<(u64, N)>,
) -> bool {
    forall|v: N, e: (u64, N)|
        d.contains_key(v) && #[trigger] v.spec_weighted_outgoing().contains(e) ==> edge_done(
            d,
            b,
            extra,
            heavy,
            v,
            e,
        )
}

/// How far a table is from settling, over the nodes `s`: the sum of their
/// tentative distances, with one more than the largest `u64` for a node not
/// yet found.
pub open spec fn potential<N>(s: Set<N>, d: Map<N, u64>) -> nat
    decreases s.len(),
{
    if s.finite() && s.len() > 0 {
        let v = s.choose();
        let here: nat = if d.contains_key(v) {
            d[v] as nat
        } else {
            u64::MAX as nat + 1
        };
        here + potential(s.remove(v), d)
    } else {
        0
    }
}

proof fn lemma_potential_agree<N>(s: Set<N>, d1: Map<N, u64>, d2: Map<N, u64>)
    requires
        s.finite(),
        forall|v: N| #[trigger] s.contains(v) ==> d1.contains_key(v) == d2.contains_key(v),
        forall|v: N| #[trigger] s.contains(v) && d1.contains_key(v) ==> d1[v] == d2[v],
    ensures
        potential(s, d1) == potential(s, d2),
    decreases s.len(),
{
    if s.len() > 0 {
        let v = s.choose();
        lemma_potential_agree(s.remove(v), d1, d2);
    }
}

/// Lowering the distance of one node of `s`, or finding it, lowers the
/// potential.
proof fn lemma_potential_decreases<N>(s: Set<N>, d: Map<N, u64>, u: N, x: u64)
    requires
        s.finite(),
        s.contains(u),
        !d.contains_key(u) || x < d[u],
    ensures
        potential(s, d.insert(u, x)) < potential(s, d),
    decreases s.len(),
{
    let v = s.choose();
    if v == u {
        lemma_potential_agree(s.remove(u), d.insert(u, x), d);
    } else {
        lemma_potential_decreases(s.remove(v), d, u, x);
    }
}

/// The buckets, each as the sequence of nodes it holds.
pub open spec fn bucket_view<N>(b: Map<u64, Vec<N>>) -> Map<u64, Seq<N>> {
    b.map_values(|l: Vec<N>| l@)
}

/// The distances and buckets after offering `new_dist` to `node`: when the
/// node is new, or `new_dist` is smaller than its distance, the node gets
/// `new_dist` and is appended to bucket `new_dist / delta`; else nothing
/// changes. Earlier entries of the node stay where they are.
pub open spec fn relax_step<N>(
    d: Map<N, u64>,
    b: Map<u64, Seq<N>>,
    node: N,
    new_dist: u64,
    delta: u64,
) -> (Map<N, u64>, Map<u64, Seq<N>>) {
    if !d.contains_key(node) || new_dist < d[node] {
        let k = (new_dist / delta) as u64;
        let list = if b.contains_key(k) {
            b[k]
        } else {
            Seq::empty()
        };
        (d.insert(node, new_dist), b.insert(k, list.push(node)))
    } else {
        (d, b)
    }
}

/// The distances, buckets and deferred edges after exploring `edges`, the
/// edges of a node at distance `dv`, in order: an edge `(w, u)` heavier than
/// `delta` is deferred as `(dv + w, u)`; a lighter one, or one of weight
/// `delta`, is relaxed at once with `dv + w` (sums capped at the largest
/// `u64`).
pub open spec fn explore_edges<N>(
    d: Map<N, u64>,
    b: Map<u64, Seq<N>>,
    heavy: Seq<(u64, N)>,
    dv: u64,
    edges: Seq<(u64, N)>,
    delta: u64,
) -> (Map<N, u64>, Map<u64, Seq<N>>, Seq<(u64, N)>)
    decreases edges.len(),
{
    if edges.len() == 0 {
        (d, b, heavy)
    } else {
        let prev = explore_edges(d, b, heavy, dv, edges.drop_last(), delta);
        let w = edges.last().0;
        let u = edges.last().1;
        let nd = capped(dv + w) as u64;
        if w > delta {
            (prev.0, prev.1, prev.2.push((nd, u)))
        } else {
            let r = relax_step(prev.0, prev.1, u, nd, delta);
            (r.0, r.1, prev.2)
        }
    }
}

/// `dv` is the distance `d` gives `v`, or zero where it gives none.
pub open spec fn edges_start<N>(d: Map<N, u64>, v: N, dv: u64) -> bool {
    dv == if d.contains_key(v) {
        d[v]
    } else {
        0
    }
}

/// The distances, buckets and deferred edges after exploring `nodes` in
/// order, each with its outgoing edges and from its distance in the table
/// at that point.
pub open spec fn explore_nodes<N: Weighted>(
    d: Map<N, u64>,
    b: Map<u64, Seq<N>>,
    heavy: Seq<(u64, N)>,
    nodes: Seq<N>,
    delta: u64,
) -> (Map<N, u64>, Map<u64, Seq<N>>, Seq<(u64, N)>)
    decreases nodes.len(),
{
    if nodes.len() == 0 {
        (d, b, heavy)
    } else {
        let prev = explore_nodes(d, b, heavy, nodes.drop_last(), delta);
        let v = nodes.last();
        let dv = if prev.0.contains_key(v) {
            prev.0[v]
        } else {
            0
        };
        explore_edges(prev.0, prev.1, prev.2, dv, v.spec_weighted_outgoing(), delta)
    }
}

/// The tables of one search: tentative distances, the order in which nodes
/// were found, buckets of nodes waiting to be explored, and the indices of
/// buckets that may be non-empty.
struct Tables<N> {
    dists: HashMap<N, u64>,
    order: Vec<N>,
    buckets: HashMap<u64, Vec<N>>,
    indices: Vec<u64>,
}

impl<N: Weighted> Tables<N> {
    /// The tables are consistent with a search from `start`.
    spec fn wf(&self, start: N) -> bool {
        let d = self.dists@;
        &&& d.contains_key(start)
        &&& d[start] == 0
        &&& forall|v: N| #[trigger] d.contains_key(v) ==> is_walk_distance(start, v, d[v])
        &&& self.order@.no_duplicates()
        &&& forall|i: int| 0 <= i < self.order.len() ==> d.contains_key(#[trigger] self.order@[i])
        &&& forall|v: N| #[trigger] d.contains_key(v) ==> self.order@.contains(v)
        &&& forall|k: u64| #[trigger] self.buckets@.contains_key(k) ==> self.indices@.contains(k)
        &&& forall|k: u64, x: N|
            self.buckets@.contains_key(k) && #[trigger] self.buckets@[k]@.contains(x) ==> d.contains_key(x)
    }
}

impl<N: Weighted + Copy + Eq + Hash> Tables<N> {
    /// Offer `new_dist` as a distance of `node`: when it is smaller than the
    /// one in the table, or the node is new, record it and queue the node in
    /// the bucket of `new_dist`.
    fn relax(&mut self, node: N, new_dist: u64, delta: u64, Ghost(start): Ghost<N>) -> (changed: bool)
        requires
            vstd::std_specs::hash::obeys_key_model::<N>(),
            old(self).wf(start),
            delta > 0,
            is_walk_distance(start, node, new_dist),
        ensures
            final(self).wf(start),
            final(self).dists@.contains_key(node),
            final(self).dists@[node] <= new_dist,
            changed == (!old(self).dists@.contains_key(node) || new_dist < old(self).dists@[node]),
            !changed ==> final(self).dists@ == old(self).dists@ && final(self).buckets@
                == old(self).buckets@,
            changed ==> final(self).dists@ == old(self).dists@.insert(node, new_dist),
            changed ==> in_buckets(final(self).buckets@, node),
            buckets_kept(old(self).buckets@, final(self).buckets@),
            final(self).buckets@.dom() == old(self).buckets@.dom() || changed,
            (final(self).dists@, bucket_view(final(self).buckets@)) == relax_step(
                old(self).dists@,
                bucket_view(old(self).buckets@),
                node,
                new_dist,
                delta,
            ),
    {
        let better = match self.dists.get(&node) {
            None => true,
            Some(old_dist) => new_dist < *old_dist,
        };
        if !better {
            return false;
        }
        let ghost d0 = self.dists@;
        let ghost b0 = self.buckets@;
        let ghost o0 = self.order@;
        let ghost i0 = self.indices@;
        let had = self.dists.insert(node, new_dist);
        if had.is_none() {
            proof {
                assert(!self.order@.contains(node));
            }
            self.order.push(node);
            proof {
                assert(self.order@[self.order@.len() - 1] == node);
                assert(self.order@.contains(node));
            }
        }
        proof {
            assert forall|v: N| o0.contains(v) implies self.order@.contains(v) by {
                let j = choose|j: int| 0 <= j < o0.len() && o0[j] == v;
                assert(self.order@[j] == v);
            }
            assert(self.order@.contains(node));
        }
        let k = new_dist / delta;
        let mut list = match self.buckets.remove(&k) {
            Some(list) => list,
            None => {
                self.indices.push(k);
                proof {
                    assert(self.indices@[self.indices@.len() - 1] == k);
                }
                Vec::new()
            },
        };
        proof {
            assert forall|x: u64| i0.contains(x) implies self.indices@.contains(x) by {
                let j = choose|j: int| 0 <= j < i0.len() && i0[j] == x;
                assert(self.indices@[j] == x);
            }
            assert(self.indices@.contains(k));
        }
        let ghost list0 = list@;
        proof {
            let bv0 = bucket_view(b0);
            assert(list0 == if bv0.contains_key(k) {
                bv0[k]
            } else {
                Seq::<N>::empty()
            });
        }
        list.push(node);
        self.buckets.insert(k, list);
        proof {
            assert(bucket_view(self.buckets@) =~= bucket_view(b0).insert(k, list0.push(node)));
            let l = self.buckets@[k]@;
            assert(l[l.len() - 1] == node);
            assert(l.contains(node));
            assert(in_buckets(self.buckets@, node));
            assert forall|k2: u64, x: N| b0.contains_key(k2) && #[trigger] b0[k2]@.contains(x) implies self.buckets@.contains_key(k2)
                && self.buckets@[k2]@.contains(x) by {
                if k2 == k {
                    let j = choose|j: int| 0 <= j < list0.len() && list0[j] == x;
                    assert(self.buckets@[k]@[j] == x);
                }
            }
            assert forall|k2: u64| #[trigger] self.buckets@.contains_key(k2) implies self.indices@.contains(k2) by {
                if k2 != k {
                    assert(b0.contains_key(k2));
                    assert(i0.contains(k2));
                }
            }
            assert forall|v: N| #[trigger] self.dists@.contains_key(v) implies self.order@.contains(v) by {
                if v != node {
                    assert(d0.contains_key(v));
                    assert(o0.contains(v));
                }
            }
            let d = self.dists@;
            assert(d.contains_key(start) && d[start] == 0);
            assert(forall|v: N| #[trigger] d.contains_key(v) ==> is_walk_distance(start, v, d[v]));
            assert(self.order@.no_duplicates());
            assert(forall|i: int| 0 <= i < self.order.len() ==> d.contains_key(#[trigger] self.order@[i]));
            assert forall|k2: u64, x: N|
                self.buckets@.contains_key(k2) && #[trigger] self.buckets@[k2]@.contains(x) implies d.contains_key(x) by {
                if k2 == k {
                    if x != node {
                        let j = choose|j: int| 0 <= j < self.buckets@[k]@.len() && self.buckets@[k]@[j] == x;
                        assert(list0[j] == x);
                        assert(b0[k]@.contains(x));
                    }
                } else {
                    assert(b0[k2]@.contains(x));
                }
            }
        }
        true
    }
}


/// A node at some walk distance is reachable.
proof fn lemma_walk_distance_reachable<N: Weighted>(start: N, n: N, d: u64)
    requires
        is_walk_distance(start, n, d),
    ensures
        weighted_reachable_set(start).contains(n),
{
    let p = choose|p: Seq<(u64, N)>| #[trigger] is_walk_between(start, n, p) && capped(walk_cost(p)) == d;
    assert(is_walk_between(start, n, p));
}

/// A change made by `relax` leaves done what was done.
proof fn lemma_relax_keeps_done<N: Weighted>(
    d: Map<N, u64>,
    b: Map<u64, Vec<N>>,
    d2: Map<N, u64>,
    b2: Map<u64, Vec<N>>,
    extra: Seq<N>,
    heavy: Seq<(u64, N)>,
    u: N,
    x: u64,
)
    requires
        all_done(d, b, extra, heavy),
        buckets_kept(b, b2),
        (d2 == d && b2 == b) || (d2 == d.insert(u, x) && (!d.contains_key(u) || x < d[u])
            && in_buckets(b2, u)),
    ensures
        all_done(d2, b2, extra, heavy),
{
    assert forall|v: N, e: (u64, N)|
        d2.contains_key(v) && #[trigger] v.spec_weighted_outgoing().contains(e) implies edge_done(
        d2,
        b2,
        extra,
        heavy,
        v,
        e,
    ) by {
        if d2 == d && b2 == b {
        } else if v == u {
        } else {
            assert(edge_done(d, b, extra, heavy, v, e));
            if in_buckets(b, v) {
                let k = choose|k: u64| b.contains_key(k) && #[trigger] b[k]@.contains(v);
                assert(b2[k]@.contains(v));
            }
            if exists|j: int|
                0 <= j < heavy.len() && (#[trigger] heavy[j]).1 == e.1 && heavy[j].0 <= capped(
                    d[v] + e.0,
                ) {
                let j = choose|j: int|
                    0 <= j < heavy.len() && (#[trigger] heavy[j]).1 == e.1 && heavy[j].0 <= capped(
                        d[v] + e.0,
                    );
                assert(heavy[j].1 == e.1);
            }
        }
    }
}

/// Deferring one more edge leaves done what was done.
proof fn lemma_defer_keeps_done<N: Weighted>(
    d: Map<N, u64>,
    b: Map<u64, Vec<N>>,
    extra: Seq<N>,
    heavy: Seq<(u64, N)>,
    h: (u64, N),
)
    requires
        all_done(d, b, extra, heavy),
    ensures
        all_done(d, b, extra, heavy.push(h)),
{
    assert forall|v: N, e: (u64, N)|
        d.contains_key(v) && #[trigger] v.spec_weighted_outgoing().contains(e) implies edge_done(
        d,
        b,
        extra,
        heavy.push(h),
        v,
        e,
    ) by {
        assert(edge_done(d, b, extra, heavy, v, e));
        if exists|j: int|
            0 <= j < heavy.len() && (#[trigger] heavy[j]).1 == e.1 && heavy[j].0 <= capped(d[v] + e.0) {
            let j = choose|j: int|
                0 <= j < heavy.len() && (#[trigger] heavy[j]).1 == e.1 && heavy[j].0 <= capped(
                    d[v] + e.0,
                );
            assert(heavy.push(h)[j] == heavy[j]);
        }
    }
}

/// Every deferred edge ends at a node at its distance along some walk.
pub open spec fn deferred_ok<N: Weighted>(start: N, heavy: Seq<(u64, N)>) -> bool {
    forall|j: int| 0 <= j < heavy.len() ==> is_walk_distance(start, (#[trigger] heavy[j]).1, heavy[j].0)
}

/// The nodes of a table are reachable.
proof fn lemma_table_reachable<N: Weighted>(start: N, d: Map<N, u64>)
    requires
        forall|v: N| #[trigger] d.contains_key(v) ==> is_walk_distance(start, v, d[v]),
    ensures
        d.dom().subset_of(weighted_reachable_set(start)),
{
    assert forall|v: N| d.dom().contains(v) implies weighted_reachable_set(start).contains(v) by {
        lemma_walk_distance_reachable(start, v, d[v]);
    }
}

impl<N: Weighted + Copy + Eq + Hash + Send + Sync> Tables<N> {
    /// The tables of a search that has found `start` and queued it in the
    /// first bucket.
    fn new(start: N) -> (t: Self)
        requires
            vstd::std_specs::hash::obeys_key_model::<N>(),
        ensures
            t.wf(start),
            all_done(t.dists@, t.buckets@, seq![], seq![]),
    {
        let mut dists: HashMap<N, u64> = HashMap::new();
        dists.insert(start, 0);
        let mut order: Vec<N> = Vec::new();
        order.push(start);
        let mut first: Vec<N> = Vec::new();
        first.push(start);
        let mut buckets: HashMap<u64, Vec<N>> = HashMap::new();
        buckets.insert(0, first);
        let mut indices: Vec<u64> = Vec::new();
        indices.push(0);
        let t = Tables { dists, order, buckets, indices };
        proof {
            lemma_walk_distance_start(start);
            assert(t.order@[0] == start);
            assert(t.indices@[0] == 0);
            assert(t.buckets@[0]@[0] == start);
            assert(t.buckets@[0]@.contains(start));
            assert(in_buckets(t.buckets@, start));
        }
        t
    }

    /// Keep, of the bucket indices, those whose bucket exists.
    fn prune_indices(&mut self, Ghost(start): Ghost<N>)
        requires
            old(self).wf(start),
        ensures
            final(self).wf(start),
            final(self).dists@ == old(self).dists@,
            final(self).buckets@ == old(self).buckets@,
            forall|i: int|
                0 <= i < final(self).indices.len() ==> final(self).buckets@.contains_key(
                    #[trigger] final(self).indices@[i],
                ),
    {
        let mut live: Vec<u64> = Vec::new();
        let mut j: usize = 0;
        while j < self.indices.len()
            invariant
                self.wf(start),
                0 <= j <= self.indices.len(),
                forall|i: int| 0 <= i < live.len() ==> self.buckets@.contains_key(#[trigger] live@[i]),
                forall|i: int|
                    0 <= i < j && self.buckets@.contains_key(#[trigger] self.indices@[i]) ==> live@.contains(
                        self.indices@[i],
                    ),
            decreases self.indices.len() - j,
        {
            let k = self.indices[j];
            if self.buckets.contains_key(&k) {
                let ghost pre = live@;
                live.push(k);
                proof {
                    assert(live@[live.len() - 1] == k);
                    assert forall|x: u64| pre.contains(x) implies live@.contains(x) by {
                        let i = choose|i: int| 0 <= i < pre.len() && pre[i] == x;
                        assert(live@[i] == x);
                    }
                }
            }
            j += 1;
        }
        proof {
            assert forall|k: u64| #[trigger] self.buckets@.contains_key(k) implies live@.contains(k) by {
                let i = choose|i: int| 0 <= i < self.indices.len() && self.indices@[i] == k;
                assert(self.buckets@.contains_key(self.indices@[i]));
            }
        }
        self.indices = live;
    }

    /// Explore the nodes of a bucket that was taken out: relax their light
    /// edges now, and defer their heavy edges to `heavy`.
    fn explore_bucket(
        &mut self,
        list: Vec<N>,
        heavy: &mut Vec<(u64, N)>,
        delta: u64,
        Ghost(start): Ghost<N>,
    )
        requires
            vstd::std_specs::hash::obeys_key_model::<N>(),
            delta > 0,
            weighted_reachable_set(start).finite(),
            old(self).wf(start),
            all_done(old(self).dists@, old(self).buckets@, list@, old(heavy)@),
            forall|j: int| 0 <= j < list.len() ==> old(self).dists@.contains_key(#[trigger] list@[j]),
            deferred_ok(start, old(heavy)@),
        ensures
            final(self).wf(start),
            all_done(final(self).dists@, final(self).buckets@, seq![], final(heavy)@),
            deferred_ok(start, final(heavy)@),
            buckets_kept(old(self).buckets@, final(self).buckets@),
            potential(weighted_reachable_set(start), final(self).dists@) <= potential(
                weighted_reachable_set(start),
                old(self).dists@,
            ),
            potential(weighted_reachable_set(start), final(self).dists@) == potential(
                weighted_reachable_set(start),
                old(self).dists@,
            ) ==> final(self).dists@ == old(self).dists@ && final(self).buckets@ == old(self).buckets@,
            (final(self).dists@, bucket_view(final(self).buckets@), final(heavy)@) == explore_nodes(
                old(self).dists@,
                bucket_view(old(self).buckets@),
                old(heavy)@,
                list@,
                delta,
            ),
    {
        let ghost reach = weighted_reachable_set(start);
        let ghost h0 = heavy@;
        let ghost nodes = list@;
        let ghost d0 = self.dists@;
        let ghost b0 = self.buckets@;
        let explore = |n: N| -> (r: (N, Vec<(u64, N)>))
            ensures
                r.0 == n,
                r.1@ == n.spec_weighted_outgoing(),
            { (n, n.weighted_outgoing()) };
        let explored = par_map(list, explore);
        proof {
            assert forall|j: int| 0 <= j < explored.len() implies (#[trigger] explored[j]).0 == nodes[j]
                && explored[j].1@ == nodes[j].spec_weighted_outgoing() by {
                assert(call_ensures(explore, (nodes[j],), explored[j]));
            }
        }
        proof {
            assert(nodes.subrange(0, nodes.len() as int) =~= nodes);
            assert(nodes.take(0) =~= Seq::<N>::empty());
        }
        let mut idx: usize = 0;
        while idx < explored.len()
            invariant
                vstd::std_specs::hash::obeys_key_model::<N>(),
                delta > 0,
                reach == weighted_reachable_set(start),
                reach.finite(),
                self.wf(start),
                explored.len() == nodes.len(),
                forall|j: int|
                    0 <= j < explored.len() ==> (#[trigger] explored[j]).0 == nodes[j] && explored[j].1@
                        == nodes[j].spec_weighted_outgoing(),
                forall|j: int| 0 <= j < nodes.len() ==> self.dists@.contains_key(#[trigger] nodes[j]),
                0 <= idx <= explored.len(),
                all_done(self.dists@, self.buckets@, nodes.subrange(idx as int, nodes.len() as int), heavy@),
                deferred_ok(start, heavy@),
                buckets_kept(b0, self.buckets@),
                potential(reach, self.dists@) <= potential(reach, d0),
                potential(reach, self.dists@) == potential(reach, d0) ==> self.dists@ == d0
                    && self.buckets@ == b0,
                (self.dists@, bucket_view(self.buckets@), heavy@) == explore_nodes(
                    d0,
                    bucket_view(b0),
                    h0,
                    nodes.take(idx as int),
                    delta,
                ),
            decreases explored.len() - idx,
        {
            let v = explored[idx].0;
            let dv = match self.dists.get(&v) {
                Some(dv) => *dv,
                None => 0,
            };
            let ghost dv0 = self.dists@;
            let ghost bv0 = bucket_view(self.buckets@);
            let ghost hv0 = heavy@;
            proof {
                assert(edges_start(dv0, v, dv));
            }
            let edges = &explored[idx].1;
            let ghost rest = nodes.subrange(idx as int, nodes.len() as int);
            let mut j: usize = 0;
            while j < edges.len()
                invariant
                    vstd::std_specs::hash::obeys_key_model::<N>(),
                    delta > 0,
                    reach == weighted_reachable_set(start),
                    reach.finite(),
                    self.wf(start),
                    edges@ == v.spec_weighted_outgoing(),
                    is_walk_distance(start, v, dv),
                    self.dists@.contains_key(v),
                    self.dists@[v] == dv || in_buckets(self.buckets@, v),
                    forall|k: int| 0 <= k < nodes.len() ==> self.dists@.contains_key(#[trigger] nodes[k]),
                    0 <= j <= edges.len(),
                    forall|k: int|
                        0 <= k < j ==> {
                            ||| self.dists@.contains_key((#[trigger] edges@[k]).1) && self.dists@[edges@[k].1]
                                <= capped(dv + edges@[k].0)
                            ||| exists|h: int|
                                0 <= h < heavy.len() && (#[trigger] heavy@[h]).1 == edges@[k].1
                                    && heavy@[h].0 <= capped(dv + edges@[k].0)
                        },
                    all_done(self.dists@, self.buckets@, rest, heavy@),
                    deferred_ok(start, heavy@),
                    buckets_kept(b0, self.buckets@),
                    potential(reach, self.dists@) <= potential(reach, d0),
                    potential(reach, self.dists@) == potential(reach, d0) ==> self.dists@ == d0
                        && self.buckets@ == b0,
                    (self.dists@, bucket_view(self.buckets@), heavy@) == explore_edges(
                        dv0,
                        bv0,
                        hv0,
                        dv,
                        edges@.take(j as int),
                        delta,
                    ),
                decreases edges.len() - j,
            {
                let (w, u) = edges[j];
                let nd = dv.saturating_add(w);
                proof {
                    assert(edges@.take(j + 1).drop_last() =~= edges@.take(j as int));
                    assert(edges@.take(j + 1).last() == edges@[j as int]);
                }
                proof {
                    assert(v.spec_weighted_outgoing().contains(edges@[j as int]));
                    lemma_walk_distance_step(start, v, dv, (w, u));
                }
                let ghost d1 = self.dists@;
                let ghost b1 = self.buckets@;
                let ghost h1 = heavy@;
                if w > delta {
                    heavy.push((nd, u));
                    proof {
                        lemma_defer_keeps_done(d1, b1, rest, h1, (nd, u));
                        assert(heavy@[heavy.len() - 1] == (nd, u));
                        assert forall|k: int| 0 <= k < j implies {
                            ||| self.dists@.contains_key((#[trigger] edges@[k]).1) && self.dists@[edges@[k].1]
                                <= capped(dv + edges@[k].0)
                            ||| exists|h: int|
                                0 <= h < heavy.len() && (#[trigger] heavy@[h]).1 == edges@[k].1
                                    && heavy@[h].0 <= capped(dv + edges@[k].0)
                        } by {
                            if !(self.dists@.contains_key(edges@[k].1) && self.dists@[edges@[k].1] <= capped(dv + edges@[k].0)) {
                                let h = choose|h: int|
                                    0 <= h < h1.len() && (#[trigger] h1[h]).1 == edges@[k].1
                                        && h1[h].0 <= capped(dv + edges@[k].0);
                                assert(heavy@[h] == h1[h]);
                            }
                        }
                    }
                } else {
                    let changed = self.relax(u, nd, delta, Ghost(start));
                    proof {
                        lemma_relax_keeps_done(d1, b1, self.dists@, self.buckets@, rest, heavy@, u, nd);
                        if changed {
                            lemma_walk_distance_reachable(start, u, nd);
                            lemma_table_reachable(start, d1);
                            lemma_potential_decreases(reach, d1, u, nd);
                            if in_buckets(b1, v) {
                                let k = choose|k: u64| b1.contains_key(k) && #[trigger] b1[k]@.contains(v);
                                assert(self.buckets@[k]@.contains(v));
                            }
                        }
                        assert forall|k: int| 0 <= k < j implies {
                            ||| self.dists@.contains_key((#[trigger] edges@[k]).1) && self.dists@[edges@[k].1]
                                <= capped(dv + edges@[k].0)
                            ||| exists|h: int|
                                0 <= h < heavy.len() && (#[trigger] heavy@[h]).1 == edges@[k].1
                                    && heavy@[h].0 <= capped(dv + edges@[k].0)
                        } by {
                            if d1.contains_key(edges@[k].1) && d1[edges@[k].1] <= capped(dv + edges@[k].0) {
                                assert(self.dists@.contains_key(edges@[k].1));
                            }
                        }
                    }
                }
                j += 1;
            }
            proof {
                assert(edges@.take(edges@.len() as int) =~= edges@);
                assert(nodes.take(idx + 1).drop_last() =~= nodes.take(idx as int));
                assert(nodes.take(idx + 1).last() == v);
                let rest2 = nodes.subrange(idx + 1, nodes.len() as int);
                assert(rest[0] == v);
                assert forall|x: N, e: (u64, N)|
                    self.dists@.contains_key(x) && #[trigger] x.spec_weighted_outgoing().contains(e) implies edge_done(
                    self.dists@,
                    self.buckets@,
                    rest2,
                    heavy@,
                    x,
                    e,
                ) by {
                    assert(edge_done(self.dists@, self.buckets@, rest, heavy@, x, e));
                    if rest.contains(x) && x != v {
                        let k = choose|k: int| 0 <= k < rest.len() && rest[k] == x;
                        assert(k != 0);
                        assert(rest2[k - 1] == x);
                    }
                    if x == v && !in_buckets(self.buckets@, v) && !rest2.contains(v) {
                        let k = choose|k: int| 0 <= k < edges@.len() && edges@[k] == e;
                        assert(edges@[k] == e);
                    }
                }
            }
            idx += 1;
        }
        proof {
            assert(nodes.subrange(nodes.len() as int, nodes.len() as int) =~= seq![]);
            assert(nodes.take(nodes.len() as int) =~= nodes);
        }
    }

    /// Relax the deferred edges.
    fn relax_deferred(&mut self, heavy: &Vec<(u64, N)>, delta: u64, Ghost(start): Ghost<N>)
        requires
            vstd::std_specs::hash::obeys_key_model::<N>(),
            delta > 0,
            weighted_reachable_set(start).finite(),
            old(self).wf(start),
            all_done(old(self).dists@, old(self).buckets@, seq![], heavy@),
            deferred_ok(start, heavy@),
        ensures
            final(self).wf(start),
            all_done(final(self).dists@, final(self).buckets@, seq![], seq![]),
            potential(weighted_reachable_set(start), final(self).dists@) <= potential(
                weighted_reachable_set(start),
                old(self).dists@,
            ),
            potential(weighted_reachable_set(start), final(self).dists@) == potential(
                weighted_reachable_set(start),
                old(self).dists@,
            ) ==> final(self).dists@ == old(self).dists@ && final(self).buckets@ == old(self).buckets@,
    {
        let ghost reach = weighted_reachable_set(start);
        let ghost d0 = self.dists@;
        let ghost b0 = self.buckets@;
        proof {
            assert(heavy@.subrange(0, heavy.len() as int) =~= heavy@);
        }
        let mut h: usize = 0;
        while h < heavy.len()
            invariant
                vstd::std_specs::hash::obeys_key_model::<N>(),
                delta > 0,
                reach == weighted_reachable_set(start),
                reach.finite(),
                self.wf(start),
                deferred_ok(start, heavy@),
                0 <= h <= heavy.len(),
                all_done(self.dists@, self.buckets@, seq![], heavy@.subrange(h as int, heavy.len() as int)),
                potential(reach, self.dists@) <= potential(reach, d0),
                potential(reach, self.dists@) == potential(reach, d0) ==> self.dists@ == d0
                    && self.buckets@ == b0,
            decreases heavy.len() - h,
        {
            let (nd, u) = heavy[h];
            let ghost d1 = self.dists@;
            let ghost b1 = self.buckets@;
            let ghost rest = heavy@.subrange(h as int, heavy.len() as int);
            let ghost rest2 = heavy@.subrange(h + 1, heavy.len() as int);
            proof {
                assert(is_walk_distance(start, heavy@[h as int].1, heavy@[h as int].0));
            }
            let changed = self.relax(u, nd, delta, Ghost(start));
            proof {
                lemma_relax_keeps_done(d1, b1, self.dists@, self.buckets@, seq![], rest, u, nd);
                if changed {
                    lemma_walk_distance_reachable(start, u, nd);
                    lemma_table_reachable(start, d1);
                    lemma_potential_decreases(reach, d1, u, nd);
                }
                assert(rest[0] == (nd, u));
                assert forall|x: N, e: (u64, N)|
                    self.dists@.contains_key(x) && #[trigger] x.spec_weighted_outgoing().contains(e) implies edge_done(
                    self.dists@,
                    self.buckets@,
                    seq![],
                    rest2,
                    x,
                    e,
                ) by {
                    assert(edge_done(self.dists@, self.buckets@, seq![], rest, x, e));
                    if !in_buckets(self.buckets@, x) && !(self.dists@.contains_key(e.1)
                        && self.dists@[e.1] <= capped(self.dists@[x] + e.0)) {
                        let k = choose|k: int|
                            0 <= k < rest.len() && (#[trigger] rest[k]).1 == e.1 && rest[k].0 <= capped(
                                self.dists@[x] + e.0,
                            );
                        assert(k != 0);
                        assert(rest2[k - 1] == rest[k]);
                    }
                }
            }
            h += 1;
        }
        proof {
            assert(heavy@.subrange(heavy.len() as int, heavy.len() as int) =~= seq![]);
        }
    }

    /// Run the search to its end: explore the lowest non-empty bucket, over
    /// and over, until no bucket is left. The distances are then the
    /// shortest ones.
    fn settle(start: N, delta: u64) -> (t: Self)
        requires
            vstd::std_specs::hash::obeys_key_model::<N>(),
            weighted_reachable_set(start).finite(),
            delta > 0,
        ensures
            t.wf(start),
            is_distance_table(start, t.dists@),
    {
        let ghost reach = weighted_reachable_set(start);
        let mut t = Tables::new(start);
        loop
            invariant
                vstd::std_specs::hash::obeys_key_model::<N>(),
                reach == weighted_reachable_set(start),
                reach.finite(),
                delta > 0,
                t.wf(start),
                all_done(t.dists@, t.buckets@, seq![], seq![]),
            ensures
                forall|k: u64| !t.buckets@.contains_key(k),
            decreases potential(reach, t.dists@), t.buckets@.dom().len(),
        {
            t.prune_indices(Ghost(start));
            let i = match par_min(&t.indices) {
                None => {
                    proof {
                        assert forall|k: u64| !t.buckets@.contains_key(k) by {
                            if t.buckets@.contains_key(k) {
                                assert(t.indices@.contains(k));
                            }
                        }
                    }
                    break ;
                },
                Some(i) => i,
            };
            let ghost d0 = t.dists@;
            let ghost b0 = t.buckets@;
            proof {
                let j = choose|j: int| 0 <= j < t.indices.len() && t.indices@[j] == i;
                assert(t.buckets@.contains_key(t.indices@[j]));
            }
            let mut heavy: Vec<(u64, N)> = Vec::new();
            loop
                invariant
                    vstd::std_specs::hash::obeys_key_model::<N>(),
                    reach == weighted_reachable_set(start),
                    reach.finite(),
                    delta > 0,
                    t.wf(start),
                    all_done(t.dists@, t.buckets@, seq![], heavy@),
                    deferred_ok(start, heavy@),
                    b0.contains_key(i),
                    potential(reach, t.dists@) <= potential(reach, d0),
                    potential(reach, t.dists@) == potential(reach, d0) ==> t.dists@ == d0
                        && t.buckets@.dom().subset_of(b0.dom()),
                ensures
                    !t.buckets@.contains_key(i),
                decreases potential(reach, t.dists@), if t.buckets@.contains_key(i) {
                    1int
                } else {
                    0int
                },
            {
                let ghost d1 = t.dists@;
                let ghost b1 = t.buckets@;
                let list = match t.buckets.remove(&i) {
                    None => {
                        proof {
                            assert(t.buckets@ =~= b1);
                        }
                        break ;
                    },
                    Some(list) => list,
                };
                proof {
                    assert forall|v: N, e: (u64, N)|
                        t.dists@.contains_key(v) && #[trigger] v.spec_weighted_outgoing().contains(e) implies edge_done(
                        t.dists@,
                        t.buckets@,
                        list@,
                        heavy@,
                        v,
                        e,
                    ) by {
                        assert(edge_done(d1, b1, seq![], heavy@, v, e));
                        if in_buckets(b1, v) {
                            let k = choose|k: u64| b1.contains_key(k) && #[trigger] b1[k]@.contains(v);
                            if k != i {
                                assert(t.buckets@[k]@.contains(v));
                            }
                        }
                    }
                    assert forall|j: int| 0 <= j < list.len() implies t.dists@.contains_key(#[trigger] list@[j]) by {
                        assert(b1[i]@.contains(list@[j]));
                    }
                    assert forall|k: u64, x: N|
                        t.buckets@.contains_key(k) && #[trigger] t.buckets@[k]@.contains(x) implies t.dists@.contains_key(x) by {
                        assert(b1[k]@.contains(x));
                    }
                    assert forall|k: u64| #[trigger] t.buckets@.contains_key(k) implies t.indices@.contains(k) by {
                        assert(b1.contains_key(k));
                    }
                }
                t.explore_bucket(list, &mut heavy, delta, Ghost(start));
            }
            t.relax_deferred(&heavy, delta, Ghost(start));
            proof {
                if potential(reach, t.dists@) == potential(reach, d0) {
                    assert(t.buckets@.dom().subset_of(b0.dom().remove(i)));
                    vstd::set_lib::lemma_len_subset(t.buckets@.dom(), b0.dom().remove(i));
                }
            }
        }
        proof {
            let d = t.dists@;
            assert forall|v: N, e: (u64, N)|
                d.contains_key(v) && #[trigger] v.spec_weighted_outgoing().contains(e) implies d.contains_key(e.1)
                    && d[e.1] <= capped(d[v] + e.0) by {
                assert(edge_done(d, t.buckets@, seq![], seq![], v, e));
            }
            assert forall|n: N| #[trigger] d.contains_key(n) implies is_shortest_distance(start, n, d[n]) by {
                assert forall|p: Seq<(u64, N)>| #[trigger] is_walk_between(start, n, p) implies d[n] <= walk_cost(p) by {
                    lemma_relaxed_table_bounds_walks(start, d, p);
                }
            }
            assert forall|n: N| #[trigger] d.contains_key(n) <==> weighted_reachable(start, n) by {
                if d.contains_key(n) {
                    lemma_walk_distance_reachable(start, n, d[n]);
                }
                if weighted_reachable(start, n) {
                    let p = choose|p: Seq<(u64, N)>| #[trigger] is_walk_between(start, n, p);
                    lemma_relaxed_table_bounds_walks(start, d, p);
                }
            }
        }
        t
    }
}

} // verus!
