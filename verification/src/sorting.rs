//! The two comparison sorts under their short names: merge sort (stable)
//! and quicksort (in place).
pub use crate::sort::merge_sort::merge_sort;
pub use crate::sort::quicksort::quicksort;
