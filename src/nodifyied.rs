//! Turning a plain value and a transition function into a [`Node`].
//!
//! [`NodifyiedBuilder`] holds the function that computes the successors of a
//! value; [`NodifyiedBuilder::build`] wraps a value into a [`Nodifyied`] node
//! whose outgoing neighbours are the function's results, wrapped the same way.
use vstd::prelude::*;

use std::hash::{Hash, Hasher};

use crate::{AsValue, Node, Weighted};

verus! {

/// `f` can be called on every value and gives one list of successors per value.
pub open spec fn is_transition<C, F: Fn(C) -> Vec<C>>(f: F) -> bool {
    &&& forall|c: C| #[trigger] call_requires(f, (c,))
    &&& forall|c: C, a: Vec<C>, b: Vec<C>|
        #[trigger] call_ensures(f, (c,), a) && #[trigger] call_ensures(f, (c,), b) ==> a@ == b@
}

/// The successors that the transition `f` gives for `c`.
pub open spec fn successors<C, F: Fn(C) -> Vec<C>>(f: F, c: C) -> Seq<C> {
    (choose|r: Vec<C>| call_ensures(f, (c,), r))@
}

/// `f` can be called on every value and gives one list of weighted
/// successors per value.
pub open spec fn is_weighted_transition<C, F: Fn(C) -> Vec<(u64, C)>>(f: F) -> bool {
    &&& forall|c: C| #[trigger] call_requires(f, (c,))
    &&& forall|c: C, a: Vec<(u64, C)>, b: Vec<(u64, C)>|
        #[trigger] call_ensures(f, (c,), a) && #[trigger] call_ensures(f, (c,), b) ==> a@ == b@
}

/// The weighted successors that the transition `f` gives for `c`.
pub open spec fn weighted_successors<C, F: Fn(C) -> Vec<(u64, C)>>(f: F, c: C) -> Seq<(u64, C)> {
    (choose|r: Vec<(u64, C)>| call_ensures(f, (c,), r))@
}

/// Under a transition, a result of `f` on `c` holds the successors of `c`.
pub proof fn lemma_successors<C, F: Fn(C) -> Vec<C>>(f: F, c: C, r: Vec<C>)
    requires
        is_transition(f),
        call_ensures(f, (c,), r),
    ensures
        r@ == successors(f, c),
{
    let s = choose|s: Vec<C>| call_ensures(f, (c,), s);
    assert(call_ensures(f, (c,), s));
}

/// The builder of [`Nodifyied`] nodes.
#[derive(Clone, Copy, Debug, Default, PartialEq, Eq, Hash)]
pub struct NodifyiedBuilder<F> {
    outgoing_wrapper: F,
}

impl<F> NodifyiedBuilder<F> {
    /// The transition function that built nodes use.
    pub closed spec fn spec_outgoing_wrapper(&self) -> F {
        self.outgoing_wrapper
    }

    /// Create a builder whose nodes compute their successors with
    /// `outgoing_wrapper`.
    pub fn new(outgoing_wrapper: F) -> (r: Self)
        ensures
            r.spec_outgoing_wrapper() == outgoing_wrapper,
    {
        NodifyiedBuilder { outgoing_wrapper }
    }

    /// Build the node that holds `current`.
    pub fn build<C>(&self, current: C) -> (r: Nodifyied<'_, C, F>) where F: Fn(C) -> Vec<C>
        requires
            is_transition(self.spec_outgoing_wrapper()),
        ensures
            r.spec_current() == current,
            r.spec_outgoing_wrapper() == self.spec_outgoing_wrapper(),
    {
        Nodifyied { current, outgoing_wrapper: &self.outgoing_wrapper }
    }

    /// Build the weighted node that holds `current`.
    pub fn build_weighted<C>(&self, current: C) -> (r: WeightedNodifyied<'_, C, F>) where
        F: Fn(C) -> Vec<(u64, C)>,
        requires
            is_weighted_transition(self.spec_outgoing_wrapper()),
        ensures
            r.spec_current() == current,
            r.spec_outgoing_wrapper() == self.spec_outgoing_wrapper(),
    {
        WeightedNodifyied { current, outgoing_wrapper: &self.outgoing_wrapper }
    }

    /// Replace the transition function.
    pub fn with_outgoing(&mut self, outgoing_wrapper: F) -> (r: &mut Self)
        ensures
            r.spec_outgoing_wrapper() == outgoing_wrapper,
            *final(self) == *final(r),
    {
        self.outgoing_wrapper = outgoing_wrapper;
        self
    }
}

/// A node made of a value and the transition function that gives the
/// successors of values.
///
/// Two such nodes are equal when their values are equal.
#[derive(Debug)]
#[verifier::reject_recursive_types(C)]
pub struct Nodifyied<'a, C, F: Fn(C) -> Vec<C>> {
    current: C,
    outgoing_wrapper: &'a F,
}

impl<'a, C, F: Fn(C) -> Vec<C>> Nodifyied<'a, C, F> {
    #[verifier::type_invariant]
    spec fn wf(self) -> bool {
        is_transition(*self.outgoing_wrapper)
    }

    /// The value the node holds.
    pub closed spec fn spec_current(self) -> C {
        self.current
    }

    /// The transition function of the node.
    pub closed spec fn spec_outgoing_wrapper(self) -> F {
        *self.outgoing_wrapper
    }
}

impl<'a, C: Copy, F: Fn(C) -> Vec<C>> Clone for Nodifyied<'a, C, F> {
    fn clone(&self) -> (r: Self)
        ensures
            r == *self,
    {
        *self
    }
}

impl<'a, C: Copy, F: Fn(C) -> Vec<C>> Copy for Nodifyied<'a, C, F> {

}

impl<'a, C: PartialEq, F: Fn(C) -> Vec<C>> PartialEq for Nodifyied<'a, C, F> {
    fn eq(&self, other: &Self) -> (r: bool) {
        self.current == other.current
    }
}

impl<'a, C: PartialEq, F: Fn(C) -> Vec<C>> vstd::std_specs::cmp::PartialEqSpecImpl for Nodifyied<'a, C, F> {
    open spec fn obeys_eq_spec() -> bool {
        <C as vstd::std_specs::cmp::PartialEqSpec>::obeys_eq_spec()
    }

    open spec fn eq_spec(&self, other: &Self) -> bool {
        <C as vstd::std_specs::cmp::PartialEqSpec>::eq_spec(&self.spec_current(), &other.spec_current())
    }
}

impl<'a, C: Eq, F: Fn(C) -> Vec<C>> Eq for Nodifyied<'a, C, F> {

}

impl<'a, C: Hash, F: Fn(C) -> Vec<C>> Hash for Nodifyied<'a, C, F> {
    /// Relies on `Hash::hash` of the value: a node hashes as its value, so
    /// that equal nodes hash alike.
    #[verifier::external_body]
    fn hash<H: Hasher>(&self, state: &mut H) {
        self.current.hash(state);
    }
}

impl<'a, C, F: Fn(C) -> Vec<C>> AsValue<C> for Nodifyied<'a, C, F> {
    open spec fn spec_as_value(self) -> C {
        self.spec_current()
    }

    fn as_value(self) -> (r: C) {
        self.current
    }
}

impl<'a, C: Copy, F: Fn(C) -> Vec<C>> Node for Nodifyied<'a, C, F> {
    closed spec fn spec_outgoing(self) -> Seq<Self> {
        successors(self.spec_outgoing_wrapper(), self.spec_current()).map_values(
            |c: C| Nodifyied { current: c, outgoing_wrapper: self.outgoing_wrapper },
        )
    }

    fn outgoing(self) -> (r: Vec<Self>) {
        proof {
            use_type_invariant(&self);
        }
        let next = (self.outgoing_wrapper)(self.current);
        assert(next@ == successors(self.spec_outgoing_wrapper(), self.spec_current()));
        let mut r: Vec<Self> = Vec::new();
        let mut i: usize = 0;
        while i < next.len()
            invariant
                is_transition(*self.outgoing_wrapper),
                0 <= i <= next.len(),
                r@ == next@.take(i as int).map_values(
                    |c: C| Nodifyied { current: c, outgoing_wrapper: self.outgoing_wrapper },
                ),
            decreases next.len() - i,
        {
            r.push(Nodifyied { current: next[i], outgoing_wrapper: self.outgoing_wrapper });
            i += 1;
        }
        assert(next@.take(next.len() as int) == next@);
        r
    }
}

impl<'a, C: Copy, F: Fn(C) -> Vec<C>> Nodifyied<'a, C, F> {
    /// The outgoing neighbours of a node hold, in order, the successors that
    /// its transition gives for its value, each with the same transition.
    pub proof fn lemma_spec_outgoing(self)
        ensures
            self.spec_outgoing().len() == successors(self.spec_outgoing_wrapper(), self.spec_current()).len(),
            forall|i: int|
                0 <= i < self.spec_outgoing().len() ==> (#[trigger] self.spec_outgoing()[i]).spec_current()
                    == successors(self.spec_outgoing_wrapper(), self.spec_current())[i]
                    && self.spec_outgoing()[i].spec_outgoing_wrapper() == self.spec_outgoing_wrapper(),
    {
    }
}

/// A node made of a value and the transition function that gives the
/// weighted successors of values.
///
/// Two such nodes are equal when their values are equal.
#[derive(Debug)]
#[verifier::reject_recursive_types(C)]
pub struct WeightedNodifyied<'a, C, F: Fn(C) -> Vec<(u64, C)>> {
    current: C,
    outgoing_wrapper: &'a F,
}

impl<'a, C, F: Fn(C) -> Vec<(u64, C)>> WeightedNodifyied<'a, C, F> {
    #[verifier::type_invariant]
    spec fn wf(self) -> bool {
        is_weighted_transition(*self.outgoing_wrapper)
    }

    /// The value the node holds.
    pub closed spec fn spec_current(self) -> C {
        self.current
    }

    /// The transition function of the node.
    pub closed spec fn spec_outgoing_wrapper(self) -> F {
        *self.outgoing_wrapper
    }
}

impl<'a, C: Copy, F: Fn(C) -> Vec<(u64, C)>> Clone for WeightedNodifyied<'a, C, F> {
    fn clone(&self) -> (r: Self)
        ensures
            r == *self,
    {
        *self
    }
}

impl<'a, C: Copy, F: Fn(C) -> Vec<(u64, C)>> Copy for WeightedNodifyied<'a, C, F> {

}

impl<'a, C: PartialEq, F: Fn(C) -> Vec<(u64, C)>> PartialEq for WeightedNodifyied<'a, C, F> {
    fn eq(&self, other: &Self) -> (r: bool) {
        self.current == other.current
    }
}

impl<'a, C: PartialEq, F: Fn(C) -> Vec<(u64, C)>> vstd::std_specs::cmp::PartialEqSpecImpl for WeightedNodifyied<'a, C, F> {
    open spec fn obeys_eq_spec() -> bool {
        <C as vstd::std_specs::cmp::PartialEqSpec>::obeys_eq_spec()
    }

    open spec fn eq_spec(&self, other: &Self) -> bool {
        <C as vstd::std_specs::cmp::PartialEqSpec>::eq_spec(&self.spec_current(), &other.spec_current())
    }
}

impl<'a, C: Eq, F: Fn(C) -> Vec<(u64, C)>> Eq for WeightedNodifyied<'a, C, F> {

}

impl<'a, C: Hash, F: Fn(C) -> Vec<(u64, C)>> Hash for WeightedNodifyied<'a, C, F> {
    /// Relies on `Hash::hash` of the value: a node hashes as its value, so
    /// that equal nodes hash alike.
    #[verifier::external_body]
    fn hash<H: Hasher>(&self, state: &mut H) {
        self.current.hash(state);
    }
}

impl<'a, C, F: Fn(C) -> Vec<(u64, C)>> AsValue<C> for WeightedNodifyied<'a, C, F> {
    open spec fn spec_as_value(self) -> C {
        self.spec_current()
    }

    fn as_value(self) -> (r: C) {
        self.current
    }
}

impl<'a, C: Copy, F: Fn(C) -> Vec<(u64, C)>> Weighted for WeightedNodifyied<'a, C, F> {
    closed spec fn spec_weighted_outgoing(self) -> Seq<(u64, Self)> {
        weighted_successors(self.spec_outgoing_wrapper(), self.spec_current()).map_values(
            |e: (u64, C)| (e.0, WeightedNodifyied { current: e.1, outgoing_wrapper: self.outgoing_wrapper }),
        )
    }

    fn weighted_outgoing(self) -> (r: Vec<(u64, Self)>) {
        proof {
            use_type_invariant(&self);
        }
        let next = (self.outgoing_wrapper)(self.current);
        assert(next@ == weighted_successors(self.spec_outgoing_wrapper(), self.spec_current()));
        let mut r: Vec<(u64, Self)> = Vec::new();
        let mut i: usize = 0;
        while i < next.len()
            invariant
                is_weighted_transition(*self.outgoing_wrapper),
                0 <= i <= next.len(),
                r@ == next@.take(i as int).map_values(
                    |e: (u64, C)| (e.0, WeightedNodifyied { current: e.1, outgoing_wrapper: self.outgoing_wrapper }),
                ),
            decreases next.len() - i,
        {
            let (w, c) = next[i];
            r.push((w, WeightedNodifyied { current: c, outgoing_wrapper: self.outgoing_wrapper }));
            proof {
                assert(next@.take(i + 1).drop_last() =~= next@.take(i as int));
            }
            i += 1;
        }
        assert(next@.take(next.len() as int) == next@);
        r
    }
}

impl<'a, C: Copy, F: Fn(C) -> Vec<(u64, C)>> WeightedNodifyied<'a, C, F> {
    /// The outgoing edges of a node hold, in order, the weights and
    /// successors that its transition gives for its value, each successor
    /// with the same transition.
    pub proof fn lemma_spec_weighted_outgoing(self)
        ensures
            self.spec_weighted_outgoing().len() == weighted_successors(
                self.spec_outgoing_wrapper(),
                self.spec_current(),
            ).len(),
            forall|i: int|
                0 <= i < self.spec_weighted_outgoing().len() ==> {
                    let e = weighted_successors(self.spec_outgoing_wrapper(), self.spec_current())[i];
                    &&& (#[trigger] self.spec_weighted_outgoing()[i]).0 == e.0
                    &&& self.spec_weighted_outgoing()[i].1.spec_current() == e.1
                    &&& self.spec_weighted_outgoing()[i].1.spec_outgoing_wrapper()
                        == self.spec_outgoing_wrapper()
                },
    {
    }
}

} // verus!
