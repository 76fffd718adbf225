//! Position-keyed sequences of `i32` values under several balancing disciplines.

pub mod avl_tree_by_box;
pub mod avl_tree_with_parent;
pub mod bench_utils;
pub mod rb_tree_with_parent;
pub mod test_utils;
pub mod unbalanced_tree_with_parent;
