//! Independent work spread over threads.

use rayon::iter::{IntoParallelIterator, ParallelIterator};
use vstd::prelude::*;

verus! {

/// Calls `f` on `0..n` through rayon's `into_par_iter().map(f).collect()`.  The
/// contract claims what rayon documents for an indexed iterator: `f` is called
/// once for each index, on some thread, and the results come in the order of
/// the indices.
#[verifier::external_body]
pub(crate) fn map_indices<T: Send, F: Fn(usize) -> T + Sync + Send>(n: usize, f: F) -> (out: Vec<T>)
    requires
        forall|i: usize| i < n ==> call_requires(f, (i,)),
    ensures
        out@.len() == n,
        forall|i: usize| i < n ==> call_ensures(f, (i,), #[trigger] out@[i as int]),
{
    (0..n).into_par_iter().map(f).collect()
}

} // verus!
