//! Query-execution building blocks: hash tables, sorting and merging,
//! search trees and pull-based execution stages, each with its behaviour
//! stated and checked.
use vstd::prelude::*;

pub mod bloom_filter;
pub mod hash_maps;
pub mod mongo;
pub mod sort;
pub mod sorting;
pub mod stages;
pub mod trees;

verus! {
} // verus!
