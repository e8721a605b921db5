//! The split-block Bloom filter, with a helper that hashes any value with
//! the standard library's default hasher.
use vstd::prelude::*;
use std::collections::hash_map::DefaultHasher;
use std::hash::{Hash, Hasher};

pub use crate::hash_maps::bloom_filter::BloomFilter;

verus! {

/// Feeds `val` to `state` (`Hash::hash`).  Nothing is claimed of what is
/// written: that is up to the value's `Hash` implementation.
#[verifier::external_body]
fn feed<T: Hash>(val: &T, state: &mut DefaultHasher) {
    val.hash(state)
}

/// A 64-bit hash of `val` from a fresh `DefaultHasher`, for use with
/// `BloomFilter`.  The default hasher has fixed keys, so equal inputs give
/// equal hashes within and across runs of one build.
pub fn hash_value<T: Hash>(val: &T) -> u64 {
    let mut state = DefaultHasher::new();
    feed(val, &mut state);
    state.finish()
}

} // verus!
