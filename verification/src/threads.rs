//! Handing bands of work out to threads.

use crate::bands::Band;
use rayon::iter::{IntoParallelRefIterator, ParallelIterator};
use vstd::prelude::*;

verus! {

/// Calls `rayon::current_num_threads`. Nothing is claimed of the number: it is
/// the machine's.
#[verifier::external_body]
pub(crate) fn thread_count() -> (n: usize)
{
    rayon::current_num_threads()
}

/// Applies `f` to every band with rayon's `par_iter().map(..).collect()`. The
/// contract claims that the results come in the order of the bands, each being
/// one that `f` gives for its band.
#[verifier::external_body]
pub(crate) fn over_bands<F: Fn(Band) -> Vec<u32> + Sync>(bands: &Vec<Band>, f: F) -> (parts: Vec<
    Vec<u32>,
>)
    requires
        forall|k: int| 0 <= k < bands@.len() ==> call_requires(f, (#[trigger] bands@[k],)),
    ensures
        parts@.len() == bands@.len(),
        forall|k: int|
            0 <= k < parts@.len() ==> call_ensures(f, (bands@[k],), #[trigger] parts@[k]),
{
    bands.par_iter().map(|b| f(*b)).collect()
}

} // verus!
