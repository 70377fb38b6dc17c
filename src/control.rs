//! Sizing of the worker pool that advances the blocks.
use vstd::prelude::*;

verus! {

/// The pool may hold fewer threads than this.
pub const MAX_THREADS: usize = 1024;

/// Relies on num_cpus::get: the number of CPUs available to this process,
/// which its documentation promises is at least 1.
#[verifier::external_body]
fn available_cpus() -> (r: usize)
    ensures
        r >= 1,
{
    num_cpus::get()
}

/// Two worker threads per CPU, or `usize::MAX` where that does not fit.
pub open spec fn default_threads(cpus: usize) -> usize {
    if 2 * cpus <= usize::MAX {
        (2 * cpus) as usize
    } else {
        usize::MAX
    }
}

/// The size of the pool: the configured size, else two threads per CPU.
pub fn worker_threads(configured: Option<usize>, cpus: usize) -> (r: usize)
    ensures
        configured matches Some(n) ==> r == n,
        configured is None ==> r == default_threads(cpus),
{
    match configured {
        Some(n) => n,
        None => {
            if cpus > usize::MAX / 2 {
                usize::MAX
            } else {
                2 * cpus
            }
        },
    }
}

/// The size of the pool on this machine: the configured size, else two
/// threads for each available CPU.
pub fn num_threads(configured: Option<usize>) -> (r: usize)
    ensures
        configured matches Some(n) ==> r == n,
        configured is None ==> r >= 2 && (r == usize::MAX || r % 2 == 0),
{
    match configured {
        Some(n) => n,
        None => worker_threads(None, available_cpus()),
    }
}

/// A pool size that the run refuses.
#[derive(Clone, Copy, Debug, PartialEq, Eq, Structural)]
pub enum ThreadCountError {
    /// No threads, or at least [`MAX_THREADS`].
    OutOfRange,
}

/// Accept a pool of at least one and fewer than [`MAX_THREADS`] threads.
pub fn validate_num_threads(n: usize) -> (r: Result<(), ThreadCountError>)
    ensures
        r is Ok <==> 0 < n < MAX_THREADS,
        r is Err ==> r == Err::<(), ThreadCountError>(ThreadCountError::OutOfRange),
{
    if n == 0 || n >= MAX_THREADS {
        Err(ThreadCountError::OutOfRange)
    } else {
        Ok(())
    }
}

} // verus!
