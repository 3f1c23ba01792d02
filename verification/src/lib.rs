//! An unbalanced binary search tree over any totally ordered value type,
//! with verified insertion, membership query and deletion. The tree stores a
//! multiset: duplicate values are kept, and deletion takes out exactly one
//! occurrence. Every operation's contract speaks of the in-order listing of
//! the stored values, which is proved to stay sorted.

pub mod bst;
pub mod order;

pub use bst::Bst;
pub use order::TotalOrder;
