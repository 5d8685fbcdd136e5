//! An ordered set of `u64` synchronised by Read-Log-Update, with a baseline
//! set behind one reader-writer lock, and a few smaller verified exercises:
//! a binary search tree, a trie, calendar events, vector helpers and a
//! futures interface.
pub mod binary_tree;
pub mod bt_set;
pub mod calendar;
pub mod concurrent_set;
pub mod future;
pub mod laws;
pub mod rlu;
pub mod rlu_set;
pub mod trie;
pub mod vec_utils;

pub use crate::binary_tree::BinaryTree;
pub use crate::bt_set::ConcurrentBTreeSet;
pub use crate::calendar::Event;
pub use crate::concurrent_set::ConcurrentSet;
pub use crate::future::{and_then, immediate, join, AndThen, Counter, Future, Immediate, Join, Mapped, Poll};
pub use crate::rlu::RluCore;
pub use crate::rlu_set::RluSet;
pub use crate::trie::Trie;
pub use crate::vec_utils::{add_n, add_n_inplace, dedup, guess_matches};
