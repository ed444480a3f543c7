//! Services that a runtime of parallel workers shares: the worker count,
//! a store shared by all workers, per-worker sequence numbers, and the
//! signals that ask workers to stop.
//!
//! The threads themselves are started by the caller; each worker knows its
//! 0-based index and passes it to these services.

use vstd::prelude::*;
use std::sync::Arc;
use std::sync::atomic::{AtomicBool, AtomicUsize, Ordering};

verus! {

/// Marks the store shared by the workers of a runtime.
pub struct LocalStoreMarker;

/// The key of a worker's sequence counter in the shared store.
#[derive(Hash, PartialEq, Eq)]
pub struct WorkerId(pub usize);

impl typedmap::TypedMapKey<LocalStoreMarker> for WorkerId {
    type Value = AtomicUsize;
}

/// Local data store shared by all workers in a runtime: a concurrent map
/// (typedmap's `TypedDashMap`) whose keys fix the types of their values.
#[verifier::external_body]
pub struct LocalStore {
    pub map: typedmap::TypedDashMap<LocalStoreMarker>,
}

/// Relies on `TypedDashMap::new`: an empty store.
#[verifier::external_body]
fn new_store() -> (r: LocalStore) {
    LocalStore { map: typedmap::TypedDashMap::new() }
}

/// Relies on `TypedDashMap::entry(..).or_insert(..)` and
/// `AtomicUsize::fetch_add`: the counter under `WorkerId(worker)`, created
/// at zero when absent, is returned and advanced in one step.
#[verifier::external_body]
fn next_in_store(store: &LocalStore, worker: usize) -> (r: usize) {
    store.map.entry(WorkerId(worker)).or_insert(AtomicUsize::new(0)).fetch_add(1, Ordering::SeqCst)
}

/// Relies on `Arc::clone`: another pointer to the same allocation.
#[verifier::external_body]
fn share<T>(a: &Arc<T>) -> (r: Arc<T>)
    ensures
        r == *a,
{
    Arc::clone(a)
}

struct RuntimeInner {
    nworkers: usize,
    store: LocalStore,
    kill_signals: Vec<Arc<AtomicBool>>,
}

/// A runtime that hosts `nworkers` circuits running in parallel workers.
pub struct Runtime {
    inner: Arc<RuntimeInner>,
}

impl Clone for Runtime {
    fn clone(&self) -> (r: Self)
        ensures
            r.nworkers() == self.nworkers(),
    {
        proof {
            use_type_invariant(self);
        }
        Runtime { inner: share(&self.inner) }
    }
}

impl Runtime {
    pub closed spec fn nworkers(&self) -> usize {
        self.inner.nworkers
    }

    #[verifier::type_invariant]
    closed spec fn wf(&self) -> bool {
        self.inner.kill_signals@.len() == self.inner.nworkers
    }

    /// A runtime for `nworkers` workers: an empty store, and no worker
    /// asked to stop.
    pub fn new(nworkers: usize) -> (r: Self)
        ensures
            r.nworkers() == nworkers,
    {
        let mut kill_signals: Vec<Arc<AtomicBool>> = Vec::new();
        let mut i: usize = 0;
        while i < nworkers
            invariant
                i <= nworkers,
                kill_signals@.len() == i,
            decreases nworkers - i,
        {
            kill_signals.push(Arc::new(AtomicBool::new(false)));
            i = i + 1;
        }
        Runtime { inner: Arc::new(RuntimeInner { nworkers, store: new_store(), kill_signals }) }
    }

    /// The number of workers in this runtime.
    pub fn num_workers(&self) -> (r: usize)
        ensures
            r == self.nworkers(),
    {
        self.inner.nworkers
    }

    /// The data store shared by all workers within the runtime.
    pub fn local_store(&self) -> &LocalStore {
        &self.inner.store
    }

    /// A per-worker sequential counter: repeated calls with the same worker
    /// index give 0, 1, 2, ...
    pub fn sequence_next(&self, worker_index: usize) -> (r: usize)
        requires
            worker_index < self.nworkers(),
    {
        next_in_store(&self.inner.store, worker_index)
    }

    /// The signal that asks worker `i` to stop: the one that `kill` sets and
    /// `kill_in_progress(i)` reads.
    pub closed spec fn signal(&self, i: int) -> Arc<AtomicBool> {
        self.inner.kill_signals@[i]
    }

    /// The signal that asks worker `worker_index` to stop; a worker shares
    /// it with whatever wakes it.
    pub fn kill_signal(&self, worker_index: usize) -> (r: Arc<AtomicBool>)
        requires
            worker_index < self.nworkers(),
        ensures
            r == self.signal(worker_index as int),
    {
        proof {
            use_type_invariant(self);
        }
        share(&self.inner.kill_signals[worker_index])
    }

    /// `true` once worker `worker_index` has been asked to stop: it reads
    /// `signal(worker_index)`. Schedulers check it before each operator and
    /// after each wake-up.
    pub fn kill_in_progress(&self, worker_index: usize) -> bool
        requires
            worker_index < self.nworkers(),
    {
        proof {
            use_type_invariant(self);
        }
        self.inner.kill_signals[worker_index].load(Ordering::SeqCst)
    }

    /// Asks every worker to stop.
    pub fn kill(&self) {
        proof {
            use_type_invariant(self);
        }
        let mut i: usize = 0;
        while i < self.inner.kill_signals.len()
            decreases self.inner.kill_signals@.len() - i,
        {
            self.inner.kill_signals[i].store(true, Ordering::SeqCst);
            i = i + 1;
        }
    }
}

} // verus!
