//! Sorting and merging.
use vstd::prelude::*;

pub mod order;
pub mod insertion_sort;
pub mod merge_sort;
pub mod quicksort;
pub mod heap;
pub mod heapsort;
pub mod k_way_merge;
pub mod external_sort;

verus! {
} // verus!
