//! Trees: a binary search tree, an AVL map, a splay tree, a trie and an
//! n-ary boolean expression tree.
use vstd::prelude::*;

pub mod binary_tree;
pub mod avl_tree;
pub mod splay_tree;
pub mod trie;
pub mod expression_tree;
pub mod ordered_sets;

verus! {
} // verus!
