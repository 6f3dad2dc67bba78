//! Two classic in-memory data structures with verified contracts:
//! an unbalanced binary search tree over any totally ordered element
//! type, and an array-backed binary heap driven by a caller-supplied
//! comparison predicate.

pub mod binary_search_tree;
pub mod heap;
pub mod order;

pub use order::TotalOrder;
