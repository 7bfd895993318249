//! The thread pool that the work is shared out to.

use vstd::prelude::*;

verus! {

/// The number of threads of the current `rayon` pool, by
/// `rayon::current_num_threads`.
///
/// Trusted: nothing is promised of the number, which depends on the machine
/// and on how the pool was set up.
#[verifier::external_body]
pub(crate) fn worker_count() -> (workers: usize) {
    rayon::current_num_threads()
}

} // verus!
