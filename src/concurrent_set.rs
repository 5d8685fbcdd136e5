//! The operations that every concurrent set of this library offers.
use vstd::prelude::*;

verus! {

/// A set shared between threads through handles.
pub trait ConcurrentSet<T>: Sized {
    /// The number of elements in the set.
    fn len(&self) -> usize;

    /// Whether `value` is in the set.
    fn contains(&self, value: T) -> bool;

    /// Adds `value` if it is absent; returns whether it was added.
    fn insert(&self, value: T) -> bool;

    /// Removes `value` if it is present; returns whether it was removed.
    fn delete(&self, value: T) -> bool;

    /// A new handle to the same underlying set.
    fn clone_ref(&self) -> Self;
}

} // verus!
