//! Indexed, mutable sequences backed by balanced binary trees that are keyed
//! by in-order position, together with the modular field they aggregate over.

pub mod bbst_comparison;
pub mod bitvector_rank;
pub mod error;
pub mod fp;
pub mod left_leaning_rbtree;
pub mod lg;
pub mod model;
pub mod random;
pub mod reversible_avltree;
pub mod reversible_avltree_by_box;
pub mod reversible_left_leaning_rbtree;
pub mod text;
