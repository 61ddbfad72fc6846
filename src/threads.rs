//! How a pool of worker threads is sized.

use vstd::prelude::*;

verus! {

/// The number of workers where the machine's parallelism cannot be found.
pub const DEFAULT_THREADS: usize = 8;

/// How many queued tasks each worker accounts for.
pub const CHANNEL_MULTIPLIER: usize = 4;

/// The capacity of the task queue of a pool of `num_threads` workers.
pub fn queue_capacity(num_threads: usize) -> (r: usize)
    requires
        num_threads > 0,
        num_threads * CHANNEL_MULTIPLIER <= usize::MAX,
    ensures
        r == num_threads * CHANNEL_MULTIPLIER,
{
    num_threads * CHANNEL_MULTIPLIER
}

/// The number of workers of a pool that uses every core: the parallelism that
/// was found, or `DEFAULT_THREADS` where none was.
pub fn worker_count(detected: Option<usize>) -> (r: usize)
    ensures
        r == match detected {
            Some(n) => n,
            None => DEFAULT_THREADS,
        },
{
    match detected {
        Some(n) => n,
        None => DEFAULT_THREADS,
    }
}

} // verus!
