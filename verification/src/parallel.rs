//! Fork/join helpers on top of the rayon thread pool.

use rayon::iter::IntoParallelIterator;
use rayon::iter::ParallelIterator;
use vstd::prelude::*;

verus! {

/// Applies `f` to every index below `n` on rayon's thread pool and gathers
/// the results by index.
///
/// Not proved: this runs `(0..n).into_par_iter().map(f).collect()`. The
/// contract claims what rayon documents for an indexed parallel iterator
/// collected into a `Vec`: one call of `f` per index, and the result of the
/// call for index `i` stored at position `i`.
#[verifier::external_body]
pub(crate) fn par_map_index<T: Send, F: Fn(usize) -> T + Sync + Send>(n: usize, f: F) -> (out: Vec<T>)
    requires
        forall|i: usize| i < n ==> call_requires(f, (i,)),
    ensures
        out@.len() == n,
        forall|i: usize| i < n ==> call_ensures(f, (i,), #[trigger] out@[i as int]),
{
    (0..n).into_par_iter().map(f).collect()
}

/// Runs two closures, possibly in parallel, and returns both results.
///
/// Not proved: this calls `rayon::join`. The contract claims what rayon
/// documents: both closures are called once, and their results come back in
/// the order of the arguments.
#[verifier::external_body]
pub(crate) fn par_join<A, B, RA: Send, RB: Send>(a: A, b: B) -> (out: (RA, RB)) where
    A: FnOnce() -> RA + Send,
    B: FnOnce() -> RB + Send,

    requires
        call_requires(a, ()),
        call_requires(b, ()),
    ensures
        call_ensures(a, (), out.0),
        call_ensures(b, (), out.1),
{
    rayon::join(a, b)
}

} // verus!
