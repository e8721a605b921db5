//! Hash-based structures: an open-addressing hash map, a split-block
//! bloom filter and an LRU cache.
use vstd::prelude::*;

pub mod hash_map;
pub mod bloom_filter;
pub mod lru_cache;

verus! {
} // verus!
