//! Work handed to rayon's thread pool.
use vstd::prelude::*;

use rayon::iter::{IntoParallelIterator, IntoParallelRefIterator, ParallelIterator};

verus! {

/// Relies on `rayon::current_num_threads`: the number of threads of the
/// current pool. Nothing is promised of the number.
#[verifier::external_body]
pub(crate) fn current_num_threads() -> (r: usize) {
    rayon::current_num_threads()
}

/// Relies on rayon's `into_par_iter().map(f).collect()` into a `Vec`: `f` is
/// called on each item, on the pool's threads, and the results keep the
/// order of the items.
#[verifier::external_body]
pub(crate) fn par_map<T: Send, U: Send, F: Fn(T) -> U + Sync + Send>(items: Vec<T>, f: F) -> (r: Vec<
    U,
>)
    requires
        forall|i: int| 0 <= i < items.len() ==> call_requires(f, (#[trigger] items[i],)),
    ensures
        r.len() == items.len(),
        forall|i: int| 0 <= i < items.len() ==> call_ensures(f, (#[trigger] items[i],), r[i]),
{
    items.into_par_iter().map(f).collect()
}

/// Relies on rayon's `par_iter().min()`: the least item, or `None` when
/// there are none.
#[verifier::external_body]
pub(crate) fn par_min(items: &Vec<u64>) -> (r: Option<u64>)
    ensures
        match r {
            None => items.len() == 0,
            Some(m) => items@.contains(m) && forall|i: int| 0 <= i < items.len() ==> m <= items[i],
        },
{
    items.par_iter().copied().min()
}

} // verus!
