//! Thread pools: where the server runs the work of its connections.

use crate::error::{KvsError, Result};
use vstd::prelude::*;

verus! {

/// A pool of threads that runs jobs.
pub trait ThreadPool {
    /// Makes a pool of the given number of threads.
    fn new(threads: u32) -> (r: Result<Self>) where Self: Sized;

    /// Hands a job to the pool, which runs it on one of its threads. The
    /// call does not wait for the job. Jobs may run in another order than
    /// they were handed in.
    fn spawn<F>(&self, job: F) where F: FnOnce() + Send + 'static
        requires
            job.requires(()),
    ;
}

/// A pool that hands its jobs to a work-stealing pool of `rayon`. Nothing is
/// stated of what is inside.
#[verifier::external_body]
pub struct RayonThreadPool {
    pool: rayon::ThreadPool,
}

/// `rayon::ThreadPoolBuilder::build`, with the number of threads set: the
/// pool, or `None` where it could not be built.
#[verifier::external_body]
fn build_pool(threads: usize) -> (r: Option<RayonThreadPool>) {
    match rayon::ThreadPoolBuilder::new().num_threads(threads).build() {
        Ok(pool) => Some(RayonThreadPool { pool }),
        Err(_) => None,
    }
}

/// `rayon::ThreadPool::spawn`: the pool takes the job and runs it later.
#[verifier::external_body]
fn pool_spawn<F>(pool: &RayonThreadPool, job: F) where F: FnOnce() + Send + 'static
    requires
        job.requires(()),
{
    pool.pool.spawn(job)
}

impl ThreadPool for RayonThreadPool {
    /// Builds the pool. With `threads == 0` the number of threads is left to
    /// the work-stealing pool. A pool that cannot be built is reported as
    /// `ThreadPoolError`.
    fn new(threads: u32) -> (r: Result<Self>)
        ensures
            r is Err ==> r matches Err(KvsError::ThreadPoolError),
    {
        match build_pool(threads as usize) {
            Some(pool) => Ok(pool),
            None => Err(KvsError::ThreadPoolError),
        }
    }

    fn spawn<F>(&self, job: F) where F: FnOnce() + Send + 'static {
        pool_spawn(self, job)
    }
}

} // verus!
