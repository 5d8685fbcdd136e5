//! A shareable handle to an RLU-synchronised set.
use crate::concurrent_set::ConcurrentSet;
use crate::rlu::{RluCore, RLU_MAX_THREADS};
use std::sync::Arc;
use vstd::prelude::*;
use vstd::rwlock::{RwLock, RwLockPredicate};

verus! {

/// What holds of the shared state between operations: it is well formed, no
/// context is registered and no header is locked.
pub struct CoreAtRest;

impl RwLockPredicate<RluCore> for CoreAtRest {
    open spec fn inv(self, v: RluCore) -> bool {
        v.wf() && v.at_rest() && v.free_list@.len() == 0
    }
}

/// A handle to a set of `u64` shared by every handle that `clone_ref` makes
/// from it. The set lives as long as its last handle.
///
/// The protocol state sits behind a reader-writer lock whose invariant is
/// that the state is well formed and at rest. Readers share the lock and
/// walk the headers through the read-side protocol; a write takes it alone,
/// registers a thread context, runs the write-side protocol to its commit
/// and deregisters. At rest no header is locked and no reader is active, so
/// a write never meets a conflict or a full free list, and every retired
/// node is reclaimed at its commit.
pub struct RluSet {
    shared: Arc<RwLock<RluCore, CoreAtRest>>,
}

impl RluSet {
    /// A handle to a new, empty set.
    pub fn new() -> (r: RluSet) {
        let core = RluCore::new();
        RluSet { shared: Arc::new(RwLock::new(core, Ghost(CoreAtRest))) }
    }

    /// The elements as text, in ascending order: `{0, 1, 2}`.
    pub fn to_string(&self) -> String {
        let handle = self.shared.acquire_read();
        let r = handle.borrow().to_string();
        handle.release_read();
        r
    }
}

impl ConcurrentSet<u64> for RluSet {
    fn len(&self) -> usize {
        let handle = self.shared.acquire_read();
        let r = handle.borrow().len();
        handle.release_read();
        r
    }

    /// Reads through the read-side protocol, outside any thread context.
    fn contains(&self, value: u64) -> bool {
        let handle = self.shared.acquire_read();
        let r = handle.borrow().contains(RLU_MAX_THREADS, value);
        handle.release_read();
        r
    }

    /// Runs the write in a thread context of its own. A write that finds the
    /// clock spent reports `false`; at rest no other cause can stop it.
    fn insert(&self, value: u64) -> bool {
        let (mut core, handle) = self.shared.acquire_write();
        let mut out = false;
        let ghost at_rest = core;
        match core.register() {
            Some(ctx) => {
                proof {
                    assert(core.no_foreign_locks(ctx));
                    assert forall|t: int| 0 <= t < RLU_MAX_THREADS && t != ctx implies !(
                    #[trigger] core.threads@[t]).active by {
                        assert(at_rest.thread_wf(t, at_rest.threads@[t]));
                    }
                }
                match core.insert(ctx, value) {
                    Some(b) => {
                        out = b;
                    },
                    None => {
                        proof {
                            // only a spent clock stops a write at rest
                            assert(at_rest.clock == u64::MAX);
                        }
                    },
                }
                core.deregister(ctx);
            },
            None => {},
        }
        handle.release_write(core);
        out
    }

    /// Runs the write in a thread context of its own. A write that finds the
    /// clock spent reports `false`; at rest no other cause can stop it.
    fn delete(&self, value: u64) -> bool {
        let (mut core, handle) = self.shared.acquire_write();
        let mut out = false;
        let ghost at_rest = core;
        match core.register() {
            Some(ctx) => {
                proof {
                    assert(core.no_foreign_locks(ctx));
                    assert forall|t: int| 0 <= t < RLU_MAX_THREADS && t != ctx implies !(
                    #[trigger] core.threads@[t]).active by {
                        assert(at_rest.thread_wf(t, at_rest.threads@[t]));
                    }
                }
                match core.delete(ctx, value) {
                    Some(b) => {
                        out = b;
                    },
                    None => {
                        proof {
                            // only a spent clock stops a write at rest
                            assert(at_rest.clock == u64::MAX);
                        }
                    },
                }
                core.deregister(ctx);
            },
            None => {},
        }
        handle.release_write(core);
        out
    }

    fn clone_ref(&self) -> Self {
        RluSet { shared: Arc::clone(&self.shared) }
    }
}

} // verus!
