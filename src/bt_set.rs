//! A baseline concurrent set: a sorted tree behind one reader-writer lock.
use crate::concurrent_set::ConcurrentSet;
use std::collections::BTreeSet;
use std::sync::Arc;
use vstd::prelude::*;
use vstd::rwlock::{RwLock, RwLockPredicate};

verus! {

/// Any tree is an acceptable state of the baseline set.
pub struct AnyTree;

impl RwLockPredicate<BTreeSet<u64>> for AnyTree {
    open spec fn inv(self, v: BTreeSet<u64>) -> bool {
        true
    }
}

/// A handle to a set of `u64` kept in a `BTreeSet` under a reader-writer lock.
pub struct ConcurrentBTreeSet {
    shared: Arc<RwLock<BTreeSet<u64>, AnyTree>>,
}

impl ConcurrentBTreeSet {
    /// A handle to a new, empty set.
    pub fn new() -> (r: ConcurrentBTreeSet) {
        ConcurrentBTreeSet { shared: Arc::new(RwLock::new(BTreeSet::new(), Ghost(AnyTree))) }
    }
}

impl ConcurrentSet<u64> for ConcurrentBTreeSet {
    fn len(&self) -> usize {
        let handle = self.shared.acquire_read();
        let r = handle.borrow().len();
        handle.release_read();
        r
    }

    fn contains(&self, value: u64) -> bool {
        let handle = self.shared.acquire_read();
        let r = handle.borrow().contains(&value);
        handle.release_read();
        r
    }

    fn insert(&self, value: u64) -> bool {
        let (mut tree, handle) = self.shared.acquire_write();
        let r = tree.insert(value);
        handle.release_write(tree);
        r
    }

    fn delete(&self, value: u64) -> bool {
        let (mut tree, handle) = self.shared.acquire_write();
        let r = tree.remove(&value);
        handle.release_write(tree);
        r
    }

    fn clone_ref(&self) -> Self {
        ConcurrentBTreeSet { shared: Arc::clone(&self.shared) }
    }
}

} // verus!
